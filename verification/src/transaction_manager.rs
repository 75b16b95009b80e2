//! Transaction lifecycle, snapshots and the commit log (CLOG).
//!
//! A transaction is active from `begin` until it is marked committed or
//! aborted. Published state describes the transactions in flight; snapshots are
//! copies of it. Readers that take no transaction id pin the vacuum horizon
//! through a fixed slot, or through the overflow map when all slots are taken.

use vstd::prelude::*;

use crate::id_map::{ids_of, IdMap};
use crate::transaction::{Snapshot, Transaction};

verus! {

/// Value of a reader slot that nobody holds.
pub const EMPTY_SLOT: u64 = u64::MAX;

/// Value of a reader slot that is claimed and not yet published.
pub const SETTING_UP_SLOT: u64 = 0;

/// Number of reader slots.
pub const MAX_READER_SLOTS: usize = 128;

/// Bit that tells tokens of the overflow map from slot numbers.
pub const OVERFLOW_READER_TOKEN_FLAG: u64 = 0x8000_0000_0000_0000;

/// State of a transaction in the commit log.
#[derive(Debug, Clone, Copy, PartialEq, Eq, Structural)]
pub enum TransactionStatus {
    Active,
    Committed,
    Aborted,
}

/// Transactions in flight, and those that aborted and may still have versions.
#[derive(Debug)]
pub struct ActiveState {
    /// Transaction id to its snapshot's `xmin` and the time at which it began.
    pub active: IdMap<(u64, u64)>,
    pub recent_aborts: IdMap<()>,
}

/// Published transaction state, the source of snapshots.
#[derive(Debug)]
pub struct TxnState {
    /// Transactions in flight, in increasing order.
    pub active: Vec<u64>,
    /// Aborted transactions, in increasing order.
    pub aborted: Vec<u64>,
    /// Oldest snapshot `xmin` in flight, or `xmax` if there is none.
    pub xmin: u64,
    /// First transaction id that has not been given out.
    pub xmax: u64,
}

/// Bookkeeping of all transactions.
#[derive(Debug)]
pub struct TransactionManager {
    pub next_txn_id: u64,
    pub clog: IdMap<TransactionStatus>,
    pub vacuum_horizon: u64,
    pub dead_versions: u64,
    pub active_state: ActiveState,
    pub txn_state: TxnState,
    pub slots: Vec<u64>,
    pub overflow_readers: IdMap<u64>,
    pub next_reader_token: u64,
    pub next_reader_slot_probe: usize,
    pub cached_reader_slot: Option<usize>,
    pub waiters: IdMap<()>,
}

/// The smaller of two ids.
pub open spec fn smaller(a: u64, b: u64) -> u64 {
    if a <= b {
        a
    } else {
        b
    }
}

/// Smallest of `init` and the snapshot `xmin` of transactions in flight.
pub open spec fn oldest_xmin(s: Seq<(u64, (u64, u64))>, init: u64) -> u64
    decreases s.len(),
{
    if s.len() == 0 {
        init
    } else {
        smaller(oldest_xmin(s.drop_last(), init), s.last().1.0)
    }
}

/// How many steps up and round lead from one reader slot to another.
pub open spec fn slots_ahead(from: int, to: int) -> int {
    if to >= from {
        to - from
    } else {
        to + MAX_READER_SLOTS - from
    }
}

/// Smallest of `init` and the values of a list.
pub open spec fn min_of(s: Seq<u64>, init: u64) -> u64
    decreases s.len(),
{
    if s.len() == 0 {
        init
    } else {
        smaller(min_of(s.drop_last(), init), s.last())
    }
}

/// Smallest of `init` and the values of overflow readers.
pub open spec fn min_reader(s: Seq<(u64, u64)>, init: u64) -> u64
    decreases s.len(),
{
    if s.len() == 0 {
        init
    } else {
        smaller(min_reader(s.drop_last(), init), s.last().1)
    }
}

proof fn lemma_oldest_xmin(s: Seq<(u64, (u64, u64))>, init: u64)
    ensures
        oldest_xmin(s, init) <= init,
        forall|i: int| 0 <= i < s.len() ==> oldest_xmin(s, init) <= (#[trigger] s[i]).1.0,
        oldest_xmin(s, init) == init || exists|i: int|
            0 <= i < s.len() && oldest_xmin(s, init) == (#[trigger] s[i]).1.0,
    decreases s.len(),
{
    if s.len() > 0 {
        let t = s.drop_last();
        lemma_oldest_xmin(t, init);
        assert forall|i: int| 0 <= i < s.len() implies oldest_xmin(s, init) <= (
        #[trigger] s[i]).1.0 by {
            if i < t.len() {
                assert(t[i] == s[i]);
            }
        }
        if oldest_xmin(s, init) == s.last().1.0 {
            assert(s[s.len() - 1].1.0 == s.last().1.0);
        } else if oldest_xmin(t, init) != init {
            let i = choose|i: int| 0 <= i < t.len() && oldest_xmin(t, init) == (#[trigger] t[i]).1.0;
            assert(s[i] == t[i]);
        }
    }
}

proof fn lemma_min_of(s: Seq<u64>, init: u64)
    ensures
        min_of(s, init) <= init,
        forall|i: int| 0 <= i < s.len() ==> min_of(s, init) <= #[trigger] s[i],
        min_of(s, init) == init || s.contains(min_of(s, init)),
    decreases s.len(),
{
    if s.len() > 0 {
        let t = s.drop_last();
        lemma_min_of(t, init);
        assert forall|i: int| 0 <= i < s.len() implies min_of(s, init) <= #[trigger] s[i] by {
            if i < t.len() {
                assert(t[i] == s[i]);
            }
        }
        if min_of(s, init) == s.last() {
            assert(s[s.len() - 1] == s.last());
        } else if min_of(t, init) != init {
            let i = choose|i: int| 0 <= i < t.len() && t[i] == min_of(t, init);
            assert(s[i] == t[i]);
        }
    }
}

proof fn lemma_min_reader(s: Seq<(u64, u64)>, init: u64)
    ensures
        min_reader(s, init) <= init,
        forall|i: int| 0 <= i < s.len() ==> min_reader(s, init) <= (#[trigger] s[i]).1,
        min_reader(s, init) == init || exists|i: int|
            0 <= i < s.len() && min_reader(s, init) == (#[trigger] s[i]).1,
    decreases s.len(),
{
    if s.len() > 0 {
        let t = s.drop_last();
        lemma_min_reader(t, init);
        assert forall|i: int| 0 <= i < s.len() implies min_reader(s, init) <= (
        #[trigger] s[i]).1 by {
            if i < t.len() {
                assert(t[i] == s[i]);
            }
        }
        if min_reader(s, init) == s.last().1 {
            assert(s[s.len() - 1].1 == s.last().1);
        } else if min_reader(t, init) != init {
            let i = choose|i: int| 0 <= i < t.len() && min_reader(t, init) == (#[trigger] t[i]).1;
            assert(s[i] == t[i]);
        }
    }
}

impl ActiveState {
    pub open spec fn wf(&self, next: u64) -> bool {
        &&& self.active.wf()
        &&& self.recent_aborts.wf()
        &&& forall|id: u64| #[trigger]
            self.active@.contains_key(id) ==> 1 <= id < next && 1 <= self.active@[id].0 <= id
    }
}

impl TxnState {
    /// Whether this is the published form of `a`, with `next` the next id.
    pub open spec fn describes(&self, a: ActiveState, next: u64) -> bool {
        &&& self.active@ == ids_of(a.active.pairs())
        &&& self.aborted@ == ids_of(a.recent_aborts.pairs())
        &&& self.xmin == oldest_xmin(a.active.pairs(), next)
        &&& self.xmax == next
    }
}

impl TransactionManager {
    /// Transactions known to have aborted.
    pub open spec fn aborts(&self) -> Map<u64, ()> {
        self.active_state.recent_aborts@
    }

    /// Whether a transaction is running.
    pub open spec fn in_flight(&self, id: u64) -> bool {
        self.active_state.active@.contains_key(id)
    }

    /// Whether the commit log says that a transaction committed.
    pub open spec fn committed(&self, id: u64) -> bool {
        id == 0 || (self.clog@.contains_key(id) && self.clog@[id] == TransactionStatus::Committed)
    }

    pub open spec fn wf(&self) -> bool {
        &&& self.next_txn_id >= 1
        &&& self.clog.wf()
        &&& self.active_state.wf(self.next_txn_id)
        &&& self.txn_state.describes(self.active_state, self.next_txn_id)
        &&& self.slots@.len() == MAX_READER_SLOTS
        &&& self.overflow_readers.wf()
        &&& forall|token: u64| #[trigger]
            self.overflow_readers@.contains_key(token) ==> token < self.next_reader_token
        &&& self.waiters.wf()
        &&& self.cached_reader_slot matches Some(i) ==> i < MAX_READER_SLOTS
    }

    /// The vacuum horizon: the oldest snapshot `xmin` that anybody holds.
    pub open spec fn horizon(&self) -> u64 {
        min_reader(self.overflow_readers.pairs(), min_of(self.slots@, self.txn_state.xmin))
    }

    /// The slot from which the next reader looks for a free one: the slot used last if it is
    /// free, the slot behind it if it is not, and the probe where none has been used.
    pub open spec fn first_slot(&self) -> int {
        match self.cached_reader_slot {
            Some(i) => if self.slots@[i as int] == EMPTY_SLOT {
                i as int
            } else {
                (i + 1) % MAX_READER_SLOTS as int
            },
            None => self.next_reader_slot_probe as int % MAX_READER_SLOTS as int,
        }
    }

    /// The probe once a reader has looked for a slot.
    pub open spec fn next_probe(&self) -> int {
        if self.cached_reader_slot is Some {
            self.next_reader_slot_probe as int
        } else {
            (self.next_reader_slot_probe as int + 1) % MAX_READER_SLOTS as int
        }
    }

    /// Whether slot `i` is the first free one, going up and round.
    pub open spec fn is_next_slot(&self, i: int) -> bool {
        &&& 0 <= i < MAX_READER_SLOTS
        &&& self.slots@[i] == EMPTY_SLOT
        &&& forall|j: int|
            0 <= j < MAX_READER_SLOTS && #[trigger] self.slots@[j] == EMPTY_SLOT ==> slots_ahead(
                self.first_slot(),
                i,
            ) <= slots_ahead(self.first_slot(), j)
    }

    /// The parts of the manager that reader registration leaves alone.
    pub open spec fn same_transactions(&self, other: &TransactionManager) -> bool {
        &&& self.next_txn_id == other.next_txn_id
        &&& self.clog == other.clog
        &&& self.vacuum_horizon == other.vacuum_horizon
        &&& self.dead_versions == other.dead_versions
        &&& self.active_state == other.active_state
        &&& self.txn_state == other.txn_state
        &&& self.waiters == other.waiters
    }

    /// The parts of the manager that transactions leave alone.
    pub open spec fn same_readers(&self, other: &TransactionManager) -> bool {
        &&& self.slots == other.slots
        &&& self.overflow_readers == other.overflow_readers
        &&& self.next_reader_token == other.next_reader_token
        &&& self.next_reader_slot_probe == other.next_reader_slot_probe
        &&& self.cached_reader_slot == other.cached_reader_slot
    }

    /// A manager that has seen no transaction.
    pub fn new() -> (tm: Self)
        ensures
            tm.wf(),
            tm.next_txn_id == 1,
            tm.clog@ == Map::<u64, TransactionStatus>::empty(),
            tm.active_state.active@ == Map::<u64, (u64, u64)>::empty(),
            tm.aborts() == Map::<u64, ()>::empty(),
            tm.waiters@ == Map::<u64, ()>::empty(),
            tm.vacuum_horizon == 0,
            tm.dead_versions == 0,
            tm.horizon() == 1,
            tm.txn_state.xmin == 1,
            forall|i: int| 0 <= i < MAX_READER_SLOTS ==> #[trigger] tm.slots@[i] == EMPTY_SLOT,
            tm.overflow_readers@ == Map::<u64, u64>::empty(),
            tm.next_reader_token == 0,
            tm.next_reader_slot_probe == 0,
            tm.cached_reader_slot is None,
    {
        let mut slots: Vec<u64> = Vec::new();
        let mut i: usize = 0;
        while i < MAX_READER_SLOTS
            invariant
                i <= MAX_READER_SLOTS,
                slots@.len() == i,
                forall|j: int| 0 <= j < i ==> slots@[j] == EMPTY_SLOT,
            decreases MAX_READER_SLOTS - i,
        {
            slots.push(EMPTY_SLOT);
            i = i + 1;
        }
        let tm = TransactionManager {
            next_txn_id: 1,
            clog: IdMap::new(),
            vacuum_horizon: 0,
            dead_versions: 0,
            active_state: ActiveState { active: IdMap::new(), recent_aborts: IdMap::new() },
            txn_state: TxnState { active: Vec::new(), aborted: Vec::new(), xmin: 1, xmax: 1 },
            slots,
            overflow_readers: IdMap::new(),
            next_reader_token: 0,
            next_reader_slot_probe: 0,
            cached_reader_slot: None,
            waiters: IdMap::new(),
        };
        proof {
            assert(tm.txn_state.active@ =~= ids_of(tm.active_state.active.pairs()));
            assert(tm.txn_state.aborted@ =~= ids_of(tm.active_state.recent_aborts.pairs()));
            lemma_min_of(tm.slots@, 1);
        }
        tm
    }

    /// The published form of the current state.
    fn build_txn_state(&self) -> (s: TxnState)
        requires
            self.active_state.wf(self.next_txn_id),
        ensures
            s.describes(self.active_state, self.next_txn_id),
    {
        let mut active: Vec<u64> = Vec::new();
        let mut xmin: u64 = self.next_txn_id;
        let ghost p = self.active_state.active.pairs();
        let mut i: usize = 0;
        while i < self.active_state.active.len()
            invariant
                p == self.active_state.active.pairs(),
                i <= p.len(),
                active@ =~= ids_of(p.subrange(0, i as int)),
                xmin == oldest_xmin(p.subrange(0, i as int), self.next_txn_id),
            decreases p.len() - i,
        {
            let e = self.active_state.active.at(i);
            active.push(e.0);
            if e.1.0 < xmin {
                xmin = e.1.0;
            }
            assert(p.subrange(0, i + 1).drop_last() =~= p.subrange(0, i as int));
            i = i + 1;
        }
        assert(p.subrange(0, p.len() as int) =~= p);
        let mut aborted: Vec<u64> = Vec::new();
        let ghost q = self.active_state.recent_aborts.pairs();
        let mut j: usize = 0;
        while j < self.active_state.recent_aborts.len()
            invariant
                q == self.active_state.recent_aborts.pairs(),
                j <= q.len(),
                aborted@ =~= ids_of(q.subrange(0, j as int)),
            decreases q.len() - j,
        {
            aborted.push(self.active_state.recent_aborts.at(j).0);
            j = j + 1;
        }
        assert(q.subrange(0, q.len() as int) =~= q);
        TxnState { active, aborted, xmin, xmax: self.next_txn_id }
    }

    /// Publishes the current state.
    pub fn refresh_txn_state(&mut self)
        requires
            old(self).active_state.wf(old(self).next_txn_id),
        ensures
            final(self).txn_state.describes(old(self).active_state, old(self).next_txn_id),
            *final(self) == (TransactionManager {
                txn_state: final(self).txn_state,
                ..*old(self)
            }),
    {
        self.txn_state = self.build_txn_state();
    }

    /// Raises the next transaction id to at least `n` and publishes.
    pub fn restore_next_txn_id(&mut self, n: u64)
        requires
            old(self).wf(),
        ensures
            final(self).wf(),
            final(self).next_txn_id == (if n > old(self).next_txn_id {
                n
            } else {
                old(self).next_txn_id
            }),
            final(self).clog == old(self).clog,
            final(self).active_state == old(self).active_state,
            final(self).vacuum_horizon == old(self).vacuum_horizon,
            final(self).dead_versions == old(self).dead_versions,
            final(self).waiters == old(self).waiters,
            final(self).same_readers(old(self)),
    {
        if n > self.next_txn_id {
            self.next_txn_id = n;
        }
        self.refresh_txn_state();
    }

    /// Tries to claim one reader slot.
    fn try_claim_reader_slot(&mut self, idx: usize) -> (b: bool)
        requires
            old(self).wf(),
            idx < MAX_READER_SLOTS,
        ensures
            b == (old(self).slots@[idx as int] == EMPTY_SLOT),
            !b ==> *final(self) == *old(self),
            b ==> final(self).slots@ == old(self).slots@.update(idx as int, SETTING_UP_SLOT),
            *final(self) == (TransactionManager { slots: final(self).slots, ..*old(self) }),
    {
        if self.slots[idx] == EMPTY_SLOT {
            self.slots.set(idx, SETTING_UP_SLOT);
            true
        } else {
            false
        }
    }

    /// Claims a free reader slot: the one used last if it is free, else the next
    /// free one in circular order. `None` when every slot is taken.
    fn claim_reader_slot(&mut self) -> (r: Option<usize>)
        requires
            old(self).wf(),
        ensures
            final(self).wf(),
            final(self).same_transactions(old(self)),
            final(self).overflow_readers == old(self).overflow_readers,
            final(self).next_reader_token == old(self).next_reader_token,
            r is None <==> forall|i: int|
                0 <= i < MAX_READER_SLOTS ==> #[trigger] old(self).slots@[i] != EMPTY_SLOT,
            r is None ==> final(self).slots@ == old(self).slots@,
            r matches Some(i) ==> i < MAX_READER_SLOTS && old(self).slots@[i as int] == EMPTY_SLOT
                && final(self).slots@ == old(self).slots@.update(i as int, SETTING_UP_SLOT),
            old(self).cached_reader_slot is Some && old(self).slots@[old(self).cached_reader_slot->0 as int] == EMPTY_SLOT ==> r == old(self).cached_reader_slot,
            r matches Some(i) ==> old(self).is_next_slot(i as int),
            final(self).cached_reader_slot == (if r is Some {
                r
            } else {
                old(self).cached_reader_slot
            }),
            final(self).next_reader_slot_probe == old(self).next_probe(),
    {
        let cached = self.cached_reader_slot;
        if let Some(idx) = cached {
            if self.try_claim_reader_slot(idx) {
                return Some(idx);
            }
        }
        let start: usize = match cached {
            Some(idx) => (idx + 1) % MAX_READER_SLOTS,
            None => {
                let probe: usize = self.next_reader_slot_probe;
                self.next_reader_slot_probe = (probe % MAX_READER_SLOTS + 1) % MAX_READER_SLOTS;
                probe % MAX_READER_SLOTS
            },
        };
        let mut offset: usize = 0;
        while offset < MAX_READER_SLOTS
            invariant
                self.wf(),
                offset <= MAX_READER_SLOTS,
                start < MAX_READER_SLOTS,
                cached == self.cached_reader_slot,
                cached == old(self).cached_reader_slot,
                cached matches Some(c) ==> old(self).slots@[c as int] != EMPTY_SLOT,
                start == old(self).first_slot(),
                self.next_reader_slot_probe == old(self).next_probe(),
                self.slots@ == old(self).slots@,
                self.same_transactions(old(self)),
                self.overflow_readers == old(self).overflow_readers,
                self.next_reader_token == old(self).next_reader_token,
                forall|i: int|
                    start <= i < start + offset && i < MAX_READER_SLOTS ==> #[trigger] self.slots@[i]
                        != EMPTY_SLOT,
                forall|i: int|
                    0 <= i < start + offset - MAX_READER_SLOTS ==> #[trigger] self.slots@[i]
                        != EMPTY_SLOT,
            decreases MAX_READER_SLOTS - offset,
        {
            let idx: usize = if start + offset < MAX_READER_SLOTS {
                start + offset
            } else {
                start + offset - MAX_READER_SLOTS
            };
            let skip = match cached {
                Some(c) => c == idx,
                None => false,
            };
            if !skip && self.try_claim_reader_slot(idx) {
                self.cached_reader_slot = Some(idx);
                return Some(idx);
            }
            offset = offset + 1;
        }
        None
    }

    /// The vacuum horizon: versions deleted below it are invisible to every
    /// snapshot that anybody holds.
    pub fn global_xmin(&self) -> (x: u64)
        requires
            self.wf(),
        ensures
            x == self.horizon(),
    {
        let mut x: u64 = self.txn_state.xmin;
        let mut i: usize = 0;
        assert(self.slots@.subrange(0, 0) =~= Seq::<u64>::empty());
        while i < MAX_READER_SLOTS
            invariant
                self.wf(),
                i <= MAX_READER_SLOTS,
                x == min_of(self.slots@.subrange(0, i as int), self.txn_state.xmin),
            decreases MAX_READER_SLOTS - i,
        {
            let v: u64 = self.slots[i];
            if v != EMPTY_SLOT && v < x {
                x = v;
            }
            assert(self.slots@.subrange(0, i + 1).drop_last() =~= self.slots@.subrange(
                0,
                i as int,
            ));
            i = i + 1;
        }
        assert(self.slots@.subrange(0, MAX_READER_SLOTS as int) =~= self.slots@);
        let ghost base = x;
        let ghost p = self.overflow_readers.pairs();
        let mut j: usize = 0;
        while j < self.overflow_readers.len()
            invariant
                p == self.overflow_readers.pairs(),
                j <= p.len(),
                x == min_reader(p.subrange(0, j as int), base),
            decreases p.len() - j,
        {
            let v: u64 = self.overflow_readers.at(j).1;
            if v < x {
                x = v;
            }
            assert(p.subrange(0, j + 1).drop_last() =~= p.subrange(0, j as int));
            j = j + 1;
        }
        assert(p.subrange(0, p.len() as int) =~= p);
        x
    }

    /// Takes a snapshot without a transaction id. The token that comes with it
    /// pins the vacuum horizon at the snapshot's `xmin` until it is handed to
    /// [`Self::end_read`].
    pub fn read_snapshot(&mut self) -> (r: (Snapshot, u64))
        requires
            old(self).wf(),
            old(self).next_reader_token < OVERFLOW_READER_TOKEN_FLAG,
        ensures
            final(self).wf(),
            final(self).same_transactions(old(self)),
            r.0.reflects(old(self).txn_state),
            final(self).horizon() == old(self).horizon(),
            final(self).next_reader_slot_probe == old(self).next_probe(),
            (exists|i: int|
                0 <= i < MAX_READER_SLOTS && #[trigger] old(self).slots@[i] == EMPTY_SLOT) ==> {
                &&& r.1 < MAX_READER_SLOTS
                &&& old(self).slots@[r.1 as int] == EMPTY_SLOT
                &&& old(self).is_next_slot(r.1 as int)
                &&& final(self).cached_reader_slot == Some(r.1 as usize)
                &&& final(self).slots@ == old(self).slots@.update(
                    r.1 as int,
                    old(self).txn_state.xmin,
                )
                &&& final(self).overflow_readers == old(self).overflow_readers
                &&& final(self).next_reader_token == old(self).next_reader_token
            },
            (forall|i: int|
                0 <= i < MAX_READER_SLOTS ==> #[trigger] old(self).slots@[i] != EMPTY_SLOT) ==> {
                &&& r.1 == old(self).next_reader_token + OVERFLOW_READER_TOKEN_FLAG
                &&& final(self).cached_reader_slot == old(self).cached_reader_slot
                &&& final(self).slots@ == old(self).slots@
                &&& final(self).overflow_readers@ == old(self).overflow_readers@.insert(
                    old(self).next_reader_token,
                    old(self).txn_state.xmin,
                )
                &&& final(self).next_reader_token == old(self).next_reader_token + 1
            },
    {
        match self.claim_reader_slot() {
            Some(idx) => {
                let xmin: u64 = self.txn_state.xmin;
                self.slots.set(idx, xmin);
                assert(self.slots@ =~= old(self).slots@.update(idx as int, xmin));
                proof {
                    lemma_horizon_joined(*old(self), *self);
                }
                (Snapshot::from_state(&self.txn_state), idx as u64)
            },
            None => {
                let token: u64 = self.next_reader_token;
                self.next_reader_token = token + 1;
                self.overflow_readers.insert(token, self.txn_state.xmin);
                assert(token | 0x8000_0000_0000_0000 == token + 0x8000_0000_0000_0000)
                    by (bit_vector)
                    requires
                        token < 0x8000_0000_0000_0000,
                ;
                proof {
                    assert(old(self).overflow_readers@.insert(token, old(self).txn_state.xmin)
                        == self.overflow_readers@);
                    lemma_horizon_joined(*old(self), *self);
                }
                (Snapshot::from_state(&self.txn_state), token | OVERFLOW_READER_TOKEN_FLAG)
            },
        }
    }

    /// Releases what a token of [`Self::read_snapshot`] pins.
    pub fn end_read(&mut self, token: u64)
        requires
            old(self).wf(),
            token < MAX_READER_SLOTS || token >= OVERFLOW_READER_TOKEN_FLAG,
        ensures
            final(self).wf(),
            final(self).same_transactions(old(self)),
            final(self).horizon() >= old(self).horizon(),
            final(self).next_reader_token == old(self).next_reader_token,
            final(self).cached_reader_slot == old(self).cached_reader_slot,
            final(self).next_reader_slot_probe == old(self).next_reader_slot_probe,
            token < MAX_READER_SLOTS ==> final(self).slots@ == old(self).slots@.update(
                token as int,
                EMPTY_SLOT,
            ) && final(self).overflow_readers == old(self).overflow_readers,
            token >= OVERFLOW_READER_TOKEN_FLAG ==> final(self).slots@ == old(self).slots@
                && final(self).overflow_readers@ == old(self).overflow_readers@.remove(
                (token - OVERFLOW_READER_TOKEN_FLAG) as u64,
            ),
    {
        assert(token & 0x8000_0000_0000_0000 != 0 <==> token >= 0x8000_0000_0000_0000)
            by (bit_vector);
        if token & OVERFLOW_READER_TOKEN_FLAG != 0 {
            self.overflow_readers.remove(token - OVERFLOW_READER_TOKEN_FLAG);
        } else {
            self.slots.set(token as usize, EMPTY_SLOT);
        }
        proof {
            law_horizon_is_least(*old(self));
            assert forall|id: u64| #[trigger] self.in_flight(id) implies old(self).horizon()
                <= self.active_state.active@[id].0 by {
                assert(old(self).in_flight(id));
            }
            lemma_horizon_over(old(self).horizon(), *self);
        }
    }

    /// Age at time `now` of the oldest transaction in flight.
    pub fn oldest_active_txn_age(&self, now: u64) -> (r: Option<u64>)
        requires
            self.wf(),
            forall|id: u64| #[trigger] self.in_flight(id) ==> self.active_state.active@[id].1 <= now,
        ensures
            r is None <==> self.active_state.active@ == Map::<u64, (u64, u64)>::empty(),
            r matches Some(age) ==> {
                &&& exists|id: u64| #[trigger]
                    self.in_flight(id) && age == now - self.active_state.active@[id].1
                &&& forall|id: u64| #[trigger]
                    self.in_flight(id) ==> now - self.active_state.active@[id].1 <= age
            },
    {
        proof {
            self.active_state.active.lemma_pairs();
        }
        let ghost p = self.active_state.active.pairs();
        assert forall|k: int| 0 <= k < p.len() implies (#[trigger] p[k]).1.1 <= now by {
            assert(self.in_flight(p[k].0));
        }
        let mut best: Option<u64> = None;
        let mut i: usize = 0;
        while i < self.active_state.active.len()
            invariant
                p == self.active_state.active.pairs(),
                i <= p.len(),
                forall|k: int| 0 <= k < p.len() ==> (#[trigger] p[k]).1.1 <= now,
                best is None <==> i == 0,
                best matches Some(age) ==> {
                    &&& exists|k: int| 0 <= k < i && age == now - (#[trigger] p[k]).1.1
                    &&& forall|k: int| 0 <= k < i ==> now - (#[trigger] p[k]).1.1 <= age
                },
            decreases p.len() - i,
        {
            let age: u64 = now - self.active_state.active.at(i).1.1;
            assert(age == now - p[i as int].1.1);
            best = match best {
                Some(b) => if age > b {
                    Some(age)
                } else {
                    Some(b)
                },
                None => Some(age),
            };
            i = i + 1;
        }
        proof {
            if let Some(age) = best {
                let k = choose|k: int| 0 <= k < p.len() && age == now - (#[trigger] p[k]).1.1;
                assert(self.in_flight(p[k].0));
            } else {
                assert(self.active_state.active@ =~= Map::<u64, (u64, u64)>::empty());
            }
            if p.len() > 0 {
                assert(self.active_state.active@.contains_key(p[0].0));
            }
        }
        best
    }

    /// Records the horizon of a completed vacuum sweep, which never moves
    /// backward, and forgets aborted transactions below it.
    pub fn publish_vacuum_horizon(&mut self, horizon: u64)
        requires
            old(self).wf(),
        ensures
            final(self).wf(),
            final(self).vacuum_horizon == (if horizon > old(self).vacuum_horizon {
                horizon
            } else {
                old(self).vacuum_horizon
            }),
            forall|id: u64| #[trigger]
                final(self).aborts().contains_key(id) <==> old(self).aborts().contains_key(id)
                    && id >= final(self).vacuum_horizon,
            final(self).next_txn_id == old(self).next_txn_id,
            final(self).clog == old(self).clog,
            final(self).dead_versions == old(self).dead_versions,
            final(self).active_state.active == old(self).active_state.active,
            final(self).waiters == old(self).waiters,
            final(self).same_readers(old(self)),
    {
        if horizon > self.vacuum_horizon {
            self.vacuum_horizon = horizon;
        }
        let h: u64 = self.vacuum_horizon;
        let mut kept: IdMap<()> = IdMap::new();
        proof {
            self.active_state.recent_aborts.lemma_pairs();
        }
        let ghost p = self.active_state.recent_aborts.pairs();
        let mut i: usize = 0;
        while i < self.active_state.recent_aborts.len()
            invariant
                p == self.active_state.recent_aborts.pairs(),
                i <= p.len(),
                kept.wf(),
                forall|id: u64| #[trigger]
                    kept@.contains_key(id) <==> id >= h && exists|k: int|
                        0 <= k < i && (#[trigger] p[k]).0 == id,
            decreases p.len() - i,
        {
            let id: u64 = self.active_state.recent_aborts.at(i).0;
            let ghost before = kept@;
            if id >= h {
                kept.insert(id, ());
            }
            proof {
                assert(p[i as int].0 == id);
                assert forall|x: u64| #[trigger] kept@.contains_key(x) <==> x >= h && exists|k: int|
                    0 <= k < i + 1 && (#[trigger] p[k]).0 == x by {
                    assert(before.contains_key(x) <==> x >= h && exists|k: int|
                        0 <= k < i && (#[trigger] p[k]).0 == x);
                    if exists|k: int| 0 <= k < i && (#[trigger] p[k]).0 == x {
                        let k = choose|k: int| 0 <= k < i && (#[trigger] p[k]).0 == x;
                        assert(p[k].0 == x);
                    }
                }
            }
            i = i + 1;
        }
        self.active_state.recent_aborts = kept;
        proof {
            assert forall|id: u64| #[trigger]
                self.aborts().contains_key(id) <==> old(self).aborts().contains_key(id) && id
                    >= h by {
                if old(self).aborts().contains_key(id) {
                    let k = choose|k: int| 0 <= k < p.len() && (#[trigger] p[k]).0 == id;
                    assert(p[k].0 == id);
                }
                if exists|k: int| 0 <= k < p.len() && (#[trigger] p[k]).0 == id {
                    let k = choose|k: int| 0 <= k < p.len() && (#[trigger] p[k]).0 == id;
                    assert(old(self).aborts().contains_key(p[k].0));
                }
            }
        }
        self.refresh_txn_state();
    }

    /// The horizon of the last completed vacuum sweep.
    pub fn vacuum_horizon(&self) -> (h: u64)
        ensures
            h == self.vacuum_horizon,
    {
        self.vacuum_horizon
    }

    /// Counts one more dead version.
    pub fn note_dead_version(&mut self)
        requires
            old(self).dead_versions < u64::MAX,
        ensures
            *final(self) == (TransactionManager {
                dead_versions: (old(self).dead_versions + 1) as u64,
                ..*old(self)
            }),
    {
        self.dead_versions = self.dead_versions + 1;
    }

    /// Dead versions counted since the count was last taken.
    pub fn dead_versions(&self) -> (n: u64)
        ensures
            n == self.dead_versions,
    {
        self.dead_versions
    }

    /// Resets the count of dead versions and returns what it was.
    pub fn take_dead_versions(&mut self) -> (n: u64)
        ensures
            n == old(self).dead_versions,
            *final(self) == (TransactionManager { dead_versions: 0, ..*old(self) }),
    {
        let n: u64 = self.dead_versions;
        self.dead_versions = 0;
        n
    }

    /// Gives a taken count back.
    pub fn restore_dead_versions(&mut self, n: u64)
        requires
            old(self).dead_versions + n <= u64::MAX,
        ensures
            *final(self) == (TransactionManager {
                dead_versions: (old(self).dead_versions + n) as u64,
                ..*old(self)
            }),
    {
        self.dead_versions = self.dead_versions + n;
    }

    /// Whether truncation at `committed_horizon` keeps an entry of the log.
    pub open spec fn keeps(&self, committed_horizon: u64, id: u64) -> bool {
        match self.clog@[id] {
            TransactionStatus::Active => true,
            TransactionStatus::Committed => id >= committed_horizon,
            TransactionStatus::Aborted => id >= self.vacuum_horizon,
        }
    }

    /// Drops commit-log entries that no lookup needs: committed ones below
    /// `committed_horizon`, aborted ones below the vacuum horizon.
    pub fn truncate_clog(&mut self, committed_horizon: u64)
        requires
            old(self).wf(),
        ensures
            final(self).wf(),
            forall|id: u64| #[trigger]
                final(self).clog@.contains_key(id) <==> old(self).clog@.contains_key(id) && old(self).keeps(committed_horizon, id),
            forall|id: u64| #[trigger]
                final(self).clog@.contains_key(id) ==> final(self).clog@[id] == old(self).clog@[id],
            *final(self) == (TransactionManager { clog: final(self).clog, ..*old(self) }),
    {
        let h: u64 = self.vacuum_horizon;
        let mut kept: IdMap<TransactionStatus> = IdMap::new();
        proof {
            self.clog.lemma_pairs();
        }
        let ghost p = self.clog.pairs();
        let mut i: usize = 0;
        while i < self.clog.len()
            invariant
                *self == *old(self),
                p == self.clog.pairs(),
                i <= p.len(),
                h == self.vacuum_horizon,
                kept.wf(),
                forall|k: int|
                    0 <= k < p.len() ==> self.clog@.contains_key((#[trigger] p[k]).0)
                        && self.clog@[p[k].0] == p[k].1,
                forall|id: u64| #[trigger]
                    kept@.contains_key(id) <==> self.keeps(committed_horizon, id) && exists|k: int|
                        0 <= k < i && (#[trigger] p[k]).0 == id,
                forall|id: u64| #[trigger] kept@.contains_key(id) ==> kept@[id] == self.clog@[id],
            decreases p.len() - i,
        {
            let e = self.clog.at(i);
            let id: u64 = e.0;
            let status = e.1;
            let keep = match status {
                TransactionStatus::Active => true,
                TransactionStatus::Committed => id >= committed_horizon,
                TransactionStatus::Aborted => id >= h,
            };
            let ghost before = kept@;
            assert(p[i as int].0 == id);
            assert(keep == self.keeps(committed_horizon, id));
            if keep {
                kept.insert(id, status);
            }
            proof {
                assert forall|x: u64| #[trigger] kept@.contains_key(x) <==> self.keeps(
                    committed_horizon,
                    x,
                ) && exists|k: int| 0 <= k < i + 1 && (#[trigger] p[k]).0 == x by {
                    assert(before.contains_key(x) <==> self.keeps(committed_horizon, x)
                        && exists|k: int| 0 <= k < i && (#[trigger] p[k]).0 == x);
                    if exists|k: int| 0 <= k < i && (#[trigger] p[k]).0 == x {
                        let k = choose|k: int| 0 <= k < i && (#[trigger] p[k]).0 == x;
                        assert(p[k].0 == x);
                    }
                }
                assert forall|x: u64| #[trigger] kept@.contains_key(x) implies kept@[x]
                    == self.clog@[x] by {
                    if x != id {
                        assert(before.contains_key(x));
                    }
                }
            }
            i = i + 1;
        }
        self.clog = kept;
        proof {
            assert forall|id: u64| #[trigger]
                self.clog@.contains_key(id) <==> old(self).clog@.contains_key(id) && old(self).keeps(committed_horizon, id) by {
                if old(self).clog@.contains_key(id) {
                    let k = choose|k: int| 0 <= k < p.len() && (#[trigger] p[k]).0 == id;
                    assert(p[k].0 == id);
                }
                if exists|k: int| 0 <= k < p.len() && (#[trigger] p[k]).0 == id {
                    let k = choose|k: int| 0 <= k < p.len() && (#[trigger] p[k]).0 == id;
                    assert(old(self).clog@.contains_key(p[k].0));
                }
            }
        }
    }

    /// Starts a transaction at time `now`. Its snapshot counts every
    /// transaction in flight, itself included, as not committed.
    pub fn begin(&mut self, now: u64) -> (t: Transaction)
        requires
            old(self).wf(),
            old(self).next_txn_id < u64::MAX,
        ensures
            final(self).wf(),
            t.txn_id == old(self).next_txn_id,
            !t.wrote_anything,
            t.snapshot.reflects(final(self).txn_state),
            t.snapshot.active@.contains(t.txn_id),
            final(self).next_txn_id == old(self).next_txn_id + 1,
            t.snapshot.xmin == old(self).txn_state.xmin,
            final(self).active_state.active@ == old(self).active_state.active@.insert(
                t.txn_id,
                (t.snapshot.xmin, now),
            ),
            forall|id: u64| #[trigger]
                t.snapshot.active@.contains(id) ==> t.snapshot.xmin <= id,
            final(self).horizon() == old(self).horizon(),
            final(self).aborts() == old(self).aborts(),
            final(self).clog@ == old(self).clog@.insert(t.txn_id, TransactionStatus::Active),
            final(self).vacuum_horizon == old(self).vacuum_horizon,
            final(self).dead_versions == old(self).dead_versions,
            final(self).waiters == old(self).waiters,
            final(self).same_readers(old(self)),
    {
        let txn_id: u64 = self.next_txn_id;
        self.next_txn_id = txn_id + 1;
        proof {
            self.active_state.active.lemma_pairs();
        }
        let ghost p = self.active_state.active.pairs();
        let xmin: u64 = self.txn_state.xmin;
        proof {
            lemma_oldest_xmin(p, txn_id);
            assert forall|id: u64| #[trigger] old(self).in_flight(id) implies xmin
                <= old(self).active_state.active@[id].0 <= id by {
                let k = choose|k: int| 0 <= k < p.len() && (#[trigger] p[k]).0 == id;
                assert(p[k].1 == self.active_state.active@[id]);
            }
            if xmin != txn_id {
                let k = choose|k: int| 0 <= k < p.len() && xmin == (#[trigger] p[k]).1.0;
                assert(self.active_state.active@.contains_key(p[k].0));
            }
        }
        self.active_state.active.insert(txn_id, (xmin, now));
        self.refresh_txn_state();
        proof {
            let q = self.active_state.active.pairs();
            self.active_state.active.lemma_pairs();
            lemma_oldest_xmin(q, self.next_txn_id);
            assert(self.active_state.active@.contains_key(txn_id));
            let k = choose|k: int| 0 <= k < q.len() && (#[trigger] q[k]).0 == txn_id;
            assert(ids_of(q)[k] == txn_id);
            assert(q[k].1 == self.active_state.active@[txn_id]);
            assert forall|z: int| 0 <= z < q.len() implies xmin <= (#[trigger] q[z]).1.0
                && q[z].1.0 <= q[z].0 by {
                assert(self.active_state.active@.contains_key(q[z].0));
                assert(q[z].0 == txn_id || old(self).in_flight(q[z].0));
            }
            assert(self.txn_state.xmin == xmin);
            assert forall|id: u64| #[trigger] ids_of(q).contains(id) implies xmin <= id by {
                let z = choose|z: int| 0 <= z < ids_of(q).len() && ids_of(q)[z] == id;
                assert(q[z].0 == id);
            }
        }
        let snapshot = Snapshot::from_state(&self.txn_state);
        self.clog.insert(txn_id, TransactionStatus::Active);
        Transaction { txn_id, snapshot, wrote_anything: false }
    }

    /// Marks a transaction committed: its writes count for new snapshots.
    /// Returns whether somebody waits for it.
    pub fn mark_committed(&mut self, txn_id: u64) -> (woken: bool)
        requires
            old(self).wf(),
        ensures
            final(self).wf(),
            final(self).clog@ == old(self).clog@.insert(txn_id, TransactionStatus::Committed),
            final(self).active_state.active@ == old(self).active_state.active@.remove(txn_id),
            final(self).aborts() == old(self).aborts(),
            final(self).waiters@ == old(self).waiters@.remove(txn_id),
            woken == old(self).waiters@.contains_key(txn_id),
            final(self).next_txn_id == old(self).next_txn_id,
            final(self).vacuum_horizon == old(self).vacuum_horizon,
            final(self).dead_versions == old(self).dead_versions,
            final(self).same_readers(old(self)),
            final(self).horizon() >= old(self).horizon(),
    {
        self.clog.insert(txn_id, TransactionStatus::Committed);
        self.active_state.active.remove(txn_id);
        self.refresh_txn_state();
        proof {
            law_horizon_is_least(*old(self));
            assert forall|id: u64| #[trigger] self.in_flight(id) implies old(self).horizon()
                <= self.active_state.active@[id].0 by {
                assert(old(self).in_flight(id));
            }
            lemma_horizon_over(old(self).horizon(), *self);
        }
        self.notify_waiters(txn_id)
    }

    /// Marks a transaction aborted: its writes never count. Returns whether
    /// somebody waits for it.
    pub fn mark_aborted(&mut self, txn_id: u64) -> (woken: bool)
        requires
            old(self).wf(),
        ensures
            final(self).wf(),
            final(self).clog@ == old(self).clog@.insert(txn_id, TransactionStatus::Aborted),
            final(self).active_state.active@ == old(self).active_state.active@.remove(txn_id),
            final(self).aborts() == old(self).aborts().insert(txn_id, ()),
            final(self).waiters@ == old(self).waiters@.remove(txn_id),
            woken == old(self).waiters@.contains_key(txn_id),
            final(self).next_txn_id == old(self).next_txn_id,
            final(self).vacuum_horizon == old(self).vacuum_horizon,
            final(self).dead_versions == old(self).dead_versions,
            final(self).same_readers(old(self)),
            final(self).horizon() >= old(self).horizon(),
    {
        self.clog.insert(txn_id, TransactionStatus::Aborted);
        self.active_state.active.remove(txn_id);
        self.active_state.recent_aborts.insert(txn_id, ());
        self.refresh_txn_state();
        proof {
            law_horizon_is_least(*old(self));
            assert forall|id: u64| #[trigger] self.in_flight(id) implies old(self).horizon()
                <= self.active_state.active@[id].0 by {
                assert(old(self).in_flight(id));
            }
            lemma_horizon_over(old(self).horizon(), *self);
        }
        self.notify_waiters(txn_id)
    }

    /// Asks to wait until a transaction settles. `false` when it has settled
    /// already; else the caller is registered and has to sleep until a call of
    /// [`Self::mark_committed`] or [`Self::mark_aborted`] reports the waiters.
    pub fn wait_until_settled(&mut self, blocking_txn: u64) -> (sleep: bool)
        requires
            old(self).wf(),
        ensures
            final(self).wf(),
            sleep == old(self).in_flight(blocking_txn),
            *final(self) == (TransactionManager { waiters: final(self).waiters, ..*old(self) }),
            final(self).waiters@ == (if sleep {
                old(self).waiters@.insert(blocking_txn, ())
            } else {
                old(self).waiters@
            }),
    {
        if !self.is_active(blocking_txn) {
            return false;
        }
        self.waiters.insert(blocking_txn, ());
        true
    }

    fn notify_waiters(&mut self, txn_id: u64) -> (woken: bool)
        requires
            old(self).waiters.wf(),
        ensures
            final(self).waiters.wf(),
            final(self).waiters@ == old(self).waiters@.remove(txn_id),
            woken == old(self).waiters@.contains_key(txn_id),
            *final(self) == (TransactionManager { waiters: final(self).waiters, ..*old(self) }),
    {
        let woken = self.waiters.contains(txn_id);
        self.waiters.remove(txn_id);
        woken
    }

    /// Whether the commit log has the transaction as committed.
    pub fn is_committed(&self, txn_id: u64) -> (b: bool)
        requires
            self.wf(),
        ensures
            b == self.committed(txn_id),
    {
        if txn_id == 0 {
            return true;
        }
        match self.clog.get(txn_id) {
            Some(TransactionStatus::Committed) => true,
            _ => false,
        }
    }

    /// Whether the transaction is known to have aborted.
    pub fn is_aborted(&self, txn_id: u64) -> (b: bool)
        requires
            self.wf(),
        ensures
            b == self.aborts().contains_key(txn_id),
    {
        self.active_state.recent_aborts.contains(txn_id)
    }

    /// Whether the transaction is running.
    pub fn is_active(&self, txn_id: u64) -> (b: bool)
        requires
            self.wf(),
        ensures
            b == self.in_flight(txn_id),
    {
        self.active_state.active.contains(txn_id)
    }

    /// A snapshot of the published state.
    pub fn get_snapshot(&self) -> (s: Snapshot)
        ensures
            s.reflects(self.txn_state),
    {
        Snapshot::from_state(&self.txn_state)
    }

    /// The state of a transaction, also when its log entry is gone: below the
    /// horizon, what is not known to have aborted has committed.
    pub fn settled_status(&self, txn_id: u64) -> (s: TransactionStatus)
        requires
            self.wf(),
        ensures
            s == (if self.committed(txn_id) {
                TransactionStatus::Committed
            } else if self.aborts().contains_key(txn_id) {
                TransactionStatus::Aborted
            } else if txn_id < self.horizon() {
                TransactionStatus::Committed
            } else {
                TransactionStatus::Active
            }),
    {
        if self.is_committed(txn_id) {
            TransactionStatus::Committed
        } else if self.is_aborted(txn_id) {
            TransactionStatus::Aborted
        } else if txn_id < self.global_xmin() {
            TransactionStatus::Committed
        } else {
            TransactionStatus::Active
        }
    }

    /// Marks the transactions that a checkpoint lists as aborted.
    pub fn seed_clog_from_checkpoint(&mut self, pinned_aborted: &Vec<u64>)
        requires
            old(self).wf(),
        ensures
            final(self).wf(),
            forall|id: u64| #[trigger]
                final(self).aborts().contains_key(id) <==> old(self).aborts().contains_key(id)
                    || pinned_aborted@.contains(id),
            final(self).next_txn_id == old(self).next_txn_id,
            final(self).clog == old(self).clog,
            final(self).vacuum_horizon == old(self).vacuum_horizon,
            final(self).dead_versions == old(self).dead_versions,
            final(self).active_state.active == old(self).active_state.active,
            final(self).waiters == old(self).waiters,
            final(self).same_readers(old(self)),
    {
        let mut i: usize = 0;
        while i < pinned_aborted.len()
            invariant
                i <= pinned_aborted.len(),
                self.active_state.wf(self.next_txn_id),
                forall|id: u64| #[trigger]
                    self.aborts().contains_key(id) <==> old(self).aborts().contains_key(id)
                        || pinned_aborted@.subrange(0, i as int).contains(id),
                self.active_state.active == old(self).active_state.active,
                *self == (TransactionManager {
                    active_state: self.active_state,
                    ..*old(self)
                }),
            decreases pinned_aborted.len() - i,
        {
            let id: u64 = pinned_aborted[i];
            let ghost before = self.aborts();
            self.active_state.recent_aborts.insert(id, ());
            proof {
                let a = pinned_aborted@.subrange(0, i as int);
                let b = pinned_aborted@.subrange(0, i + 1);
                assert(b =~= a.push(id));
                assert forall|x: u64| #[trigger]
                    self.aborts().contains_key(x) <==> old(self).aborts().contains_key(x)
                        || b.contains(x) by {
                    assert(before.contains_key(x) <==> old(self).aborts().contains_key(x)
                        || a.contains(x));
                    if a.contains(x) {
                        let k = choose|k: int| 0 <= k < a.len() && a[k] == x;
                        assert(b[k] == x);
                    }
                    if b.contains(x) {
                        let k = choose|k: int| 0 <= k < b.len() && b[k] == x;
                        if k < i {
                            assert(a[k] == x);
                        }
                    }
                    assert(b[i as int] == id);
                }
            }
            i = i + 1;
        }
        let ghost done = self.aborts();
        assert(pinned_aborted@.subrange(0, i as int) =~= pinned_aborted@);
        self.refresh_txn_state();
        assert(self.aborts() == done);
    }
}

/// The horizon lies at or below the snapshot `xmin` of every transaction in
/// flight and every registered reader, and it is no smaller than it has to be.
pub proof fn law_horizon_is_least(tm: TransactionManager)
    requires
        tm.wf(),
    ensures
        tm.horizon() <= tm.next_txn_id,
        forall|id: u64| #[trigger]
            tm.in_flight(id) ==> tm.horizon() <= tm.active_state.active@[id].0 <= id,
        forall|i: int| 0 <= i < tm.slots@.len() ==> tm.horizon() <= #[trigger] tm.slots@[i],
        forall|token: u64| #[trigger]
            tm.overflow_readers@.contains_key(token) ==> tm.horizon()
                <= tm.overflow_readers@[token],
        ({
            ||| tm.horizon() == tm.next_txn_id
            ||| exists|id: u64| #[trigger]
                tm.in_flight(id) && tm.horizon() == tm.active_state.active@[id].0
            ||| tm.slots@.contains(tm.horizon())
            ||| exists|token: u64| #[trigger]
                tm.overflow_readers@.contains_key(token) && tm.horizon()
                    == tm.overflow_readers@[token]
        }),
{
    let p = tm.active_state.active.pairs();
    let q = tm.overflow_readers.pairs();
    let base = min_of(tm.slots@, tm.txn_state.xmin);
    lemma_oldest_xmin(p, tm.next_txn_id);
    lemma_min_of(tm.slots@, tm.txn_state.xmin);
    lemma_min_reader(q, base);
    tm.active_state.active.lemma_pairs();
    tm.overflow_readers.lemma_pairs();
    assert forall|id: u64| #[trigger] tm.in_flight(id) implies tm.horizon()
        <= tm.active_state.active@[id].0 <= id by {
        let k = choose|k: int| 0 <= k < p.len() && (#[trigger] p[k]).0 == id;
        assert(p[k].1 == tm.active_state.active@[id]);
    }
    assert forall|token: u64| #[trigger] tm.overflow_readers@.contains_key(token) implies tm.horizon()
        <= tm.overflow_readers@[token] by {
        let k = choose|k: int| 0 <= k < q.len() && (#[trigger] q[k]).0 == token;
        assert(q[k].1 == tm.overflow_readers@[token]);
    }
    if tm.horizon() != base {
        let k = choose|k: int| 0 <= k < q.len() && tm.horizon() == (#[trigger] q[k]).1;
        assert(tm.overflow_readers@.contains_key(q[k].0));
    } else if base == tm.txn_state.xmin && base != tm.next_txn_id {
        let k = choose|k: int| 0 <= k < p.len() && base == (#[trigger] p[k]).1.0;
        assert(tm.in_flight(p[k].0));
    }
}

/// The published `xmin`, which the next snapshot gets, is the oldest of the snapshots
/// in flight, or the next id if there is none.
pub proof fn law_published_xmin(tm: TransactionManager)
    requires
        tm.wf(),
    ensures
        tm.txn_state.xmin <= tm.next_txn_id,
        forall|id: u64| #[trigger]
            tm.in_flight(id) ==> tm.txn_state.xmin <= tm.active_state.active@[id].0,
        tm.txn_state.xmin == tm.next_txn_id || exists|id: u64| #[trigger]
            tm.in_flight(id) && tm.txn_state.xmin == tm.active_state.active@[id].0,
{
    let p = tm.active_state.active.pairs();
    lemma_oldest_xmin(p, tm.next_txn_id);
    tm.active_state.active.lemma_pairs();
    assert forall|id: u64| #[trigger] tm.in_flight(id) implies tm.txn_state.xmin
        <= tm.active_state.active@[id].0 by {
        let k = choose|k: int| 0 <= k < p.len() && (#[trigger] p[k]).0 == id;
        assert(p[k].1 == tm.active_state.active@[id]);
    }
    if tm.txn_state.xmin != tm.next_txn_id {
        let k = choose|k: int| 0 <= k < p.len() && tm.txn_state.xmin == (#[trigger] p[k]).1.0;
        assert(tm.in_flight(p[k].0));
    }
}

/// With no transaction in flight and no reader registered nothing holds the horizon
/// back: it is the next id.
pub proof fn law_idle_horizon(tm: TransactionManager)
    requires
        tm.wf(),
        tm.active_state.active@ == Map::<u64, (u64, u64)>::empty(),
        forall|i: int| 0 <= i < MAX_READER_SLOTS ==> #[trigger] tm.slots@[i] == EMPTY_SLOT,
        tm.overflow_readers@ == Map::<u64, u64>::empty(),
    ensures
        tm.horizon() == tm.next_txn_id,
{
    law_horizon_is_least(tm);
    if tm.slots@.contains(tm.horizon()) {
        let i = choose|i: int| 0 <= i < tm.slots@.len() && tm.slots@[i] == tm.horizon();
        assert(tm.slots@[i] == EMPTY_SLOT);
    }
}

/// The horizon is not below what nobody holds back further.
proof fn lemma_horizon_over(h: u64, tm: TransactionManager)
    requires
        tm.wf(),
        h <= tm.next_txn_id,
        forall|id: u64| #[trigger] tm.in_flight(id) ==> h <= tm.active_state.active@[id].0,
        forall|i: int| 0 <= i < tm.slots@.len() ==> h <= #[trigger] tm.slots@[i],
        forall|token: u64| #[trigger]
            tm.overflow_readers@.contains_key(token) ==> h <= tm.overflow_readers@[token],
    ensures
        h <= tm.horizon(),
{
    law_horizon_is_least(tm);
    if tm.slots@.contains(tm.horizon()) {
        let i = choose|i: int| 0 <= i < tm.slots@.len() && tm.slots@[i] == tm.horizon();
        assert(h <= tm.slots@[i]);
    }
}

/// A reader that takes the published `xmin` leaves the horizon where it is.
proof fn lemma_horizon_joined(before: TransactionManager, after: TransactionManager)
    requires
        before.wf(),
        after.wf(),
        after.same_transactions(&before),
        ({
            ||| exists|i: int|
                0 <= i < MAX_READER_SLOTS && #[trigger] before.slots@[i] == EMPTY_SLOT
                    && after.slots@ == before.slots@.update(i, before.txn_state.xmin)
                    && after.overflow_readers == before.overflow_readers
            ||| after.slots@ == before.slots@ && exists|token: u64| #[trigger]
                before.overflow_readers@.insert(token, before.txn_state.xmin)
                    == after.overflow_readers@ && !before.overflow_readers@.contains_key(token)
        }),
    ensures
        after.horizon() == before.horizon(),
{
    law_horizon_is_least(before);
    law_horizon_is_least(after);
    lemma_min_of(before.slots@, before.txn_state.xmin);
    lemma_min_reader(
        before.overflow_readers.pairs(),
        min_of(before.slots@, before.txn_state.xmin),
    );
    assert forall|id: u64| #[trigger] after.in_flight(id) == before.in_flight(id) by {}
    lemma_horizon_over(before.horizon(), after);
    lemma_min_of(after.slots@, after.txn_state.xmin);
    lemma_min_reader(after.overflow_readers.pairs(), min_of(after.slots@, after.txn_state.xmin));
    assert forall|id: u64| #[trigger] before.in_flight(id) implies after.horizon()
        <= before.active_state.active@[id].0 by {
        assert(after.in_flight(id));
    }
    assert forall|token: u64| #[trigger]
        before.overflow_readers@.contains_key(token) implies after.horizon()
        <= before.overflow_readers@[token] by {
        assert(after.overflow_readers@.contains_key(token));
    }
    lemma_horizon_over(after.horizon(), before);
}

/// The published state lists whoever is in flight and whoever aborted.
pub proof fn lemma_published(tm: TransactionManager, id: u64)
    requires
        tm.wf(),
    ensures
        tm.txn_state.active@.contains(id) <==> tm.in_flight(id),
        tm.txn_state.aborted@.contains(id) <==> tm.aborts().contains_key(id),
{
    let p = tm.active_state.active.pairs();
    let q = tm.active_state.recent_aborts.pairs();
    tm.active_state.active.lemma_pairs();
    tm.active_state.recent_aborts.lemma_pairs();
    if ids_of(p).contains(id) {
        let k = choose|k: int| 0 <= k < ids_of(p).len() && ids_of(p)[k] == id;
        assert(p[k].0 == id);
        assert(tm.active_state.active@.contains_key(p[k].0));
    }
    if tm.in_flight(id) {
        let k = choose|k: int| 0 <= k < p.len() && (#[trigger] p[k]).0 == id;
        assert(ids_of(p)[k] == id);
    }
    if ids_of(q).contains(id) {
        let k = choose|k: int| 0 <= k < ids_of(q).len() && ids_of(q)[k] == id;
        assert(q[k].0 == id);
        assert(tm.active_state.recent_aborts@.contains_key(q[k].0));
    }
    if tm.aborts().contains_key(id) {
        let k = choose|k: int| 0 <= k < q.len() && (#[trigger] q[k]).0 == id;
        assert(ids_of(q)[k] == id);
    }
}

/// A snapshot of the published state counts as settled every transaction below
/// its `xmin`: whatever it lists as in flight lies at or above it.
pub proof fn law_snapshot_xmin(tm: TransactionManager, s: Snapshot, id: u64)
    requires
        tm.wf(),
        s.reflects(tm.txn_state),
    ensures
        s.active@.contains(id) <==> tm.in_flight(id),
        s.active@.contains(id) ==> s.xmin <= id,
        s.aborted@.contains(id) <==> tm.aborts().contains_key(id),
        s.xmin <= s.xmax,
{
    let p = tm.active_state.active.pairs();
    tm.active_state.active.lemma_pairs();
    lemma_oldest_xmin(p, tm.next_txn_id);
    lemma_published(tm, id);
    if s.active@.contains(id) {
        let k = choose|k: int| 0 <= k < ids_of(p).len() && ids_of(p)[k] == id;
        assert(p[k].0 == id);
        assert(tm.active_state.active@.contains_key(p[k].0));
    }
}

/// What a truncation of the commit log drops: the commits below the horizon that it is given
/// and the aborts below the vacuum horizon, and nothing else.
pub proof fn law_truncation_drops_old_fates(tm: TransactionManager, committed_horizon: u64, id: u64)
    requires
        tm.clog@.contains_key(id),
    ensures
        tm.in_flight(id) && tm.clog@[id] == TransactionStatus::Active ==> tm.keeps(
            committed_horizon,
            id,
        ),
        !tm.keeps(committed_horizon, id) <==> {
            ||| tm.clog@[id] == TransactionStatus::Committed && id < committed_horizon
            ||| tm.clog@[id] == TransactionStatus::Aborted && id < tm.vacuum_horizon
        },
{
}

} // verus!
