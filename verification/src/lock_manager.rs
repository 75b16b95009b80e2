//! Page locks: shared and exclusive, first come, first served, with upgrades.
//!
//! A request that cannot be granted waits in the queue of its page. The manager
//! decides who holds a lock; the host puts a thread to sleep that has to wait, and
//! wakes it to ask again after a release.

use vstd::prelude::*;

use crate::error::LockManagerError;
use crate::id_map::IdMap;

verus! {

/// Kinds of locks.
#[derive(Debug, Clone, Copy, PartialEq, Eq, Structural)]
pub enum LockType {
    SharedLock,
    ExclusiveLock,
}

/// A transaction's place in the queue of a page.
#[derive(Debug, Clone, Copy, PartialEq, Eq, Structural)]
pub struct LockRequest {
    pub transaction_id: u64,
    pub lock_type: LockType,
    pub is_granted: bool,
}

/// The requests for one page, and whether one of them is an upgrade that waits.
#[derive(Debug)]
pub struct LockQueue {
    pub requests: Vec<LockRequest>,
    pub is_upgrading: bool,
}

/// Mathematical content of a [`LockQueue`].
#[verifier::ext_equal]
pub struct QueueView {
    pub requests: Seq<LockRequest>,
    pub is_upgrading: bool,
}

impl View for LockQueue {
    type V = QueueView;

    open spec fn view(&self) -> QueueView {
        QueueView { requests: self.requests@, is_upgrading: self.is_upgrading }
    }
}

/// All page locks.
#[derive(Debug)]
pub struct LockManager {
    map: IdMap<LockQueue>,
}

/// Whether the request at `i` is a transaction's first.
pub open spec fn first_at(s: Seq<LockRequest>, txn: u64, i: int) -> bool {
    &&& 0 <= i < s.len()
    &&& s[i].transaction_id == txn
    &&& forall|j: int| 0 <= j < i ==> (#[trigger] s[j]).transaction_id != txn
}

/// Whether a transaction has a request.
pub open spec fn queued(s: Seq<LockRequest>, txn: u64) -> bool {
    exists|i: int| #[trigger] first_at(s, txn, i)
}

/// Whether one of the first `n` requests is for an exclusive lock.
pub open spec fn exclusive_before(s: Seq<LockRequest>, n: int) -> bool {
    exists|k: int| 0 <= k < n && (#[trigger] s[k]).lock_type == LockType::ExclusiveLock
}

/// Whether a request holds its lock once all requests that can be granted are:
/// it held it before, or shares it with no exclusive request before it, or is
/// exclusive and the first of all.
pub open spec fn granted_after(s: Seq<LockRequest>, i: int) -> bool {
    s[i].is_granted || match s[i].lock_type {
        LockType::SharedLock => !exclusive_before(s, i),
        LockType::ExclusiveLock => i == 0,
    }
}

/// The requests once all that can be granted are.
pub open spec fn settle(s: Seq<LockRequest>) -> Seq<LockRequest> {
    Seq::new(s.len(), |i: int| LockRequest { is_granted: granted_after(s, i), ..s[i] })
}

/// Whether locks are granted in order, and no two transactions hold locks that
/// exclude each other.
pub open spec fn in_order(s: Seq<LockRequest>) -> bool {
    &&& forall|i: int, j: int|
        0 <= i < j < s.len() && (#[trigger] s[j]).is_granted ==> (#[trigger] s[i]).is_granted
    &&& forall|i: int, j: int|
        0 <= i < s.len() && 0 <= j < s.len() && i != j && (#[trigger] s[i]).is_granted && (
        #[trigger] s[j]).is_granted ==> s[i].lock_type == LockType::SharedLock
}

/// Whether a queue is fair and safe: locks are granted in order, no two
/// transactions hold locks that exclude each other, and nobody waits without an
/// exclusive request to wait for.
pub open spec fn queue_ok(s: Seq<LockRequest>) -> bool {
    &&& in_order(s)
    &&& forall|i: int|
        0 <= i < s.len() && !(#[trigger] s[i]).is_granted ==> exclusive_before(s, i + 1)
}

/// Where a waiting upgrade goes: behind the locks that are held.
pub open spec fn upgrade_at(s: Seq<LockRequest>, p: int) -> bool {
    &&& 0 <= p <= s.len()
    &&& forall|i: int| 0 <= i < p ==> (#[trigger] s[i]).is_granted
    &&& p < s.len() ==> !s[p].is_granted
}

/// The request of an upgrade.
pub open spec fn upgrade_request(txn: u64) -> LockRequest {
    LockRequest {
        transaction_id: txn,
        lock_type: LockType::ExclusiveLock,
        is_granted: false,
    }
}

/// A release lets the first of those that are left hold its lock.
pub proof fn law_release_grants_the_first(s: Seq<LockRequest>)
    requires
        s.len() > 0,
    ensures
        settle(s)[0].is_granted,
{
    assert(!exclusive_before(s, 0));
}

/// Transactions that hold locks on a page never exclude each other: if one holds
/// an exclusive lock, it is the only one that holds a lock.
pub proof fn law_exclusive_lock_is_alone(s: Seq<LockRequest>, i: int, j: int)
    requires
        queue_ok(s),
        0 <= i < s.len(),
        0 <= j < s.len(),
        s[i].is_granted,
        s[i].lock_type == LockType::ExclusiveLock,
        s[j].is_granted,
    ensures
        i == j,
{
}

proof fn lemma_settle_ok(s: Seq<LockRequest>)
    requires
        in_order(s),
    ensures
        queue_ok(settle(s)),
{
    let t = settle(s);
    assert forall|i: int, j: int| 0 <= i < j < t.len() && (#[trigger] t[j]).is_granted implies (
    #[trigger] t[i]).is_granted by {
        if !s[j].is_granted {
            assert(s[j].lock_type == LockType::SharedLock);
            assert(s[i].lock_type == LockType::SharedLock);
            if exclusive_before(s, i) {
                let k = choose|k: int|
                    0 <= k < i && (#[trigger] s[k]).lock_type == LockType::ExclusiveLock;
                assert(exclusive_before(s, j));
            }
        } else {
            assert(s[i].is_granted);
        }
    }
    assert forall|i: int, j: int|
        0 <= i < t.len() && 0 <= j < t.len() && i != j && (#[trigger] t[i]).is_granted && (
        #[trigger] t[j]).is_granted implies t[i].lock_type == LockType::SharedLock by {
        if s[i].lock_type == LockType::ExclusiveLock {
            if s[i].is_granted {
                if !s[j].is_granted {
                    if j < i {
                        assert(s[j].is_granted);
                    }
                    assert(s[j].lock_type == LockType::SharedLock);
                    assert(exclusive_before(s, j));
                }
            } else {
                assert(i == 0);
                if s[j].is_granted {
                    assert(s[i].is_granted);
                } else {
                    assert(exclusive_before(s, j));
                }
            }
        }
    }
    assert forall|i: int| 0 <= i < t.len() && !(#[trigger] t[i]).is_granted implies exclusive_before(
        t,
        i + 1,
    ) by {
        if s[i].lock_type == LockType::SharedLock {
            let k = choose|k: int|
                0 <= k < i && (#[trigger] s[k]).lock_type == LockType::ExclusiveLock;
            assert(t[k].lock_type == LockType::ExclusiveLock);
        } else {
            assert(t[i].lock_type == LockType::ExclusiveLock);
        }
    }
}

proof fn lemma_removed(s: Seq<LockRequest>, i: int)
    requires
        in_order(s),
        0 <= i < s.len(),
    ensures
        in_order(s.remove(i)),
{
    let t = s.remove(i);
    assert forall|a: int, b: int| 0 <= a < b < t.len() && (#[trigger] t[b]).is_granted implies (
    #[trigger] t[a]).is_granted by {
        let a0 = if a < i { a } else { a + 1 };
        let b0 = if b < i { b } else { b + 1 };
        assert(t[a] == s[a0] && t[b] == s[b0]);
    }
    assert forall|a: int, b: int|
        0 <= a < t.len() && 0 <= b < t.len() && a != b && (#[trigger] t[a]).is_granted && (
        #[trigger] t[b]).is_granted implies t[a].lock_type == LockType::SharedLock by {
        let a0 = if a < i { a } else { a + 1 };
        let b0 = if b < i { b } else { b + 1 };
        assert(t[a] == s[a0] && t[b] == s[b0]);
    }
}

/// The first request of a transaction.
fn position(v: &Vec<LockRequest>, transaction_id: u64) -> (r: Option<usize>)
    ensures
        r is Some <==> queued(v@, transaction_id),
        r matches Some(i) ==> first_at(v@, transaction_id, i as int),
{
    let mut i: usize = 0;
    while i < v.len()
        invariant
            i <= v@.len(),
            forall|j: int| 0 <= j < i ==> (#[trigger] v@[j]).transaction_id != transaction_id,
        decreases v.len() - i,
    {
        if v[i].transaction_id == transaction_id {
            assert(first_at(v@, transaction_id, i as int));
            return Some(i);
        }
        i = i + 1;
    }
    None
}

/// Whether any request is for an exclusive lock.
fn any_exclusive(v: &Vec<LockRequest>) -> (b: bool)
    ensures
        b == exclusive_before(v@, v@.len() as int),
{
    let mut i: usize = 0;
    while i < v.len()
        invariant
            i <= v@.len(),
            !exclusive_before(v@, i as int),
        decreases v.len() - i,
    {
        if v[i].lock_type == LockType::ExclusiveLock {
            assert(v@[i as int].lock_type == LockType::ExclusiveLock);
            return true;
        }
        i = i + 1;
    }
    false
}

/// Grants what can be granted, front to back.
fn grant_waiting(v: &mut Vec<LockRequest>)
    ensures
        final(v)@ == settle(old(v)@),
{
    let ghost s = v@;
    let n: usize = v.len();
    let mut any_granted = false;
    let mut exclusive_seen = false;
    let mut i: usize = 0;
    while i < n
        invariant
            i <= n,
            n == s.len(),
            v@.len() == n,
            any_granted == (i > 0),
            exclusive_seen == exclusive_before(s, i as int),
            forall|j: int| 0 <= j < i ==> #[trigger] v@[j] == settle(s)[j],
            forall|j: int| i <= j < n ==> #[trigger] v@[j] == s[j],
        decreases n - i,
    {
        let request: LockRequest = v[i];
        assert(v@[i as int] == s[i as int]);
        let can_grant = request.is_granted || match request.lock_type {
            LockType::SharedLock => !exclusive_seen,
            LockType::ExclusiveLock => !any_granted,
        };
        if can_grant {
            any_granted = true;
        }
        if request.lock_type == LockType::ExclusiveLock {
            exclusive_seen = true;
        }
        v.set(
            i,
            LockRequest {
                transaction_id: request.transaction_id,
                lock_type: request.lock_type,
                is_granted: can_grant,
            },
        );
        proof {
            assert(!exclusive_before(s, 0));
            if exclusive_before(s, i + 1) && !exclusive_before(s, i as int) {
                let k = choose|k: int|
                    0 <= k < i + 1 && (#[trigger] s[k]).lock_type == LockType::ExclusiveLock;
                assert(k == i);
            }
            if exclusive_before(s, i as int) {
                let k = choose|k: int|
                    0 <= k < i && (#[trigger] s[k]).lock_type == LockType::ExclusiveLock;
                assert(exclusive_before(s, i + 1));
            }
            if s[i as int].lock_type == LockType::ExclusiveLock {
                assert(exclusive_before(s, i + 1));
            }
        }
        i = i + 1;
    }
    assert(v@ =~= settle(s));
}

fn copy_requests(v: &Vec<LockRequest>) -> (w: Vec<LockRequest>)
    ensures
        w@ == v@,
{
    let mut w: Vec<LockRequest> = Vec::new();
    let mut i: usize = 0;
    while i < v.len()
        invariant
            i <= v@.len(),
            w@ == v@.subrange(0, i as int),
        decreases v.len() - i,
    {
        w.push(v[i]);
        assert(v@.subrange(0, i + 1) =~= v@.subrange(0, i as int).push(v@[i as int]));
        i = i + 1;
    }
    assert(v@.subrange(0, v@.len() as int) =~= v@);
    w
}

/// A lock manager without requests.
impl Default for LockManager {
    fn default() -> (m: Self)
        ensures
            m.wf(),
            m@ == Map::<u64, QueueView>::empty(),
    {
        Self::new()
    }
}

impl View for LockManager {
    type V = Map<u64, QueueView>;

    /// The queue of each page that has ever been asked for.
    closed spec fn view(&self) -> Map<u64, QueueView> {
        self.map@.map_values(|q: LockQueue| q@)
    }
}

impl LockManager {
    pub closed spec fn wf(&self) -> bool {
        &&& self.map.wf()
        &&& forall|id: u64| #[trigger]
            self.map@.contains_key(id) ==> queue_ok(self.map@[id].requests@)
    }

    /// The requests for a page.
    pub open spec fn requests(&self, page_id: u64) -> Seq<LockRequest> {
        if self@.contains_key(page_id) {
            self@[page_id].requests
        } else {
            Seq::empty()
        }
    }

    /// The queue of every page is in order.
    pub proof fn law_queues_in_order(&self, page_id: u64)
        requires
            self.wf(),
        ensures
            queue_ok(self.requests(page_id)),
    {
        if self.map@.contains_key(page_id) {
            assert(queue_ok(self.map@[page_id].requests@));
        }
    }

    pub fn new() -> (m: Self)
        ensures
            m.wf(),
            m@ == Map::<u64, QueueView>::empty(),
    {
        let m = LockManager { map: IdMap::new() };
        assert(m@ =~= Map::<u64, QueueView>::empty());
        m
    }

    fn queue(&self, page_id: u64) -> (q: Option<LockQueue>)
        requires
            self.wf(),
        ensures
            q is Some <==> self@.contains_key(page_id),
            q matches Some(k) ==> k@ == self@[page_id] && queue_ok(k.requests@),
    {
        match self.map.get(page_id) {
            Some(q) => Some(
                LockQueue { requests: copy_requests(&q.requests), is_upgrading: q.is_upgrading },
            ),
            None => None,
        }
    }

    fn put(&mut self, page_id: u64, q: LockQueue)
        requires
            old(self).wf(),
            queue_ok(q.requests@),
        ensures
            final(self).wf(),
            final(self)@ == old(self)@.insert(page_id, q@),
    {
        self.map.insert(page_id, q);
        assert(self@ =~= old(self)@.insert(page_id, q@));
    }

    /// Asks for a lock on a page, and says whether it is granted at once: a shared
    /// lock if no exclusive lock is held or asked for, an exclusive one if there
    /// is no other request. Otherwise the transaction has to wait.
    pub fn acquire_lock(&mut self, transaction_id: u64, page_id: u64, lock_type: LockType) -> (
    granted: bool)
        requires
            old(self).wf(),
        ensures
            final(self).wf(),
            granted == (match lock_type {
                LockType::SharedLock => !exclusive_before(
                    old(self).requests(page_id),
                    old(self).requests(page_id).len() as int,
                ),
                LockType::ExclusiveLock => old(self).requests(page_id).len() == 0,
            }),
            lock_type == LockType::SharedLock ==> (granted <==> forall|k: int|
                0 <= k < old(self).requests(page_id).len() ==> (
                #[trigger] old(self).requests(page_id)[k]).lock_type == LockType::SharedLock),
            final(self)@ == old(self)@.insert(
                page_id,
                (QueueView {
                    requests: old(self).requests(page_id).push(
                        LockRequest { transaction_id, lock_type, is_granted: granted },
                    ),
                    is_upgrading: old(self)@.contains_key(page_id)
                        && old(self)@[page_id].is_upgrading,
                }),
            ),
    {
        let mut q = match self.queue(page_id) {
            Some(q) => q,
            None => LockQueue { requests: Vec::new(), is_upgrading: false },
        };
        let ghost s = q.requests@;
        assert(s =~= self.requests(page_id));
        let granted = match lock_type {
            LockType::SharedLock => !any_exclusive(&q.requests),
            LockType::ExclusiveLock => q.requests.len() == 0,
        };
        q.requests.push(LockRequest { transaction_id, lock_type, is_granted: granted });
        proof {
            let t = q.requests@;
            let n = s.len() as int;
            assert forall|i: int| 0 <= i < t.len() && !(
            #[trigger] t[i]).is_granted implies exclusive_before(t, i + 1) by {
                if i < n {
                    assert(exclusive_before(s, i + 1));
                    let k = choose|k: int|
                        0 <= k < i + 1 && (#[trigger] s[k]).lock_type == LockType::ExclusiveLock;
                    assert(t[k].lock_type == LockType::ExclusiveLock);
                } else if lock_type == LockType::SharedLock {
                    let k = choose|k: int|
                        0 <= k < n && (#[trigger] s[k]).lock_type == LockType::ExclusiveLock;
                    assert(t[k].lock_type == LockType::ExclusiveLock);
                } else {
                    assert(t[n].lock_type == LockType::ExclusiveLock);
                }
            }
            if granted && lock_type == LockType::SharedLock {
                assert forall|i: int| 0 <= i < n implies (#[trigger] s[i]).is_granted && s[i].lock_type
                    == LockType::SharedLock by {
                    if !s[i].is_granted {
                        assert(exclusive_before(s, i + 1));
                        let k = choose|k: int|
                            0 <= k < i + 1 && (#[trigger] s[k]).lock_type
                                == LockType::ExclusiveLock;
                        assert(exclusive_before(s, n));
                    }
                    if s[i].lock_type == LockType::ExclusiveLock {
                        assert(exclusive_before(s, n));
                    }
                }
            }
        }
        self.put(page_id, q);
        granted
    }

    /// Whether a transaction that waits for a page holds its lock by now.
    pub fn is_granted(&self, transaction_id: u64, page_id: u64) -> (granted: bool)
        requires
            self.wf(),
        ensures
            granted == exists|i: int| #[trigger]
                first_at(self.requests(page_id), transaction_id, i) && self.requests(
                    page_id,
                )[i].is_granted,
    {
        match self.queue(page_id) {
            Some(q) => {
                match position(&q.requests, transaction_id) {
                    Some(i) => {
                        let granted = q.requests[i].is_granted;
                        proof {
                            let s = self.requests(page_id);
                            assert(first_at(s, transaction_id, i as int));
                            assert forall|k: int| #[trigger]
                                first_at(s, transaction_id, k) implies k == i by {}
                        }
                        granted
                    },
                    None => false,
                }
            },
            None => false,
        }
    }

    /// Gives a lock or a place in the queue back, and grants the locks that can
    /// be granted then. Everybody who waits for the page has to ask again.
    pub fn release_lock(&mut self, transaction_id: u64, page_id: u64) -> (r: Result<
        (),
        LockManagerError,
    >)
        requires
            old(self).wf(),
        ensures
            final(self).wf(),
            r is Ok <==> queued(old(self).requests(page_id), transaction_id),
            r matches Err(e) ==> e == LockManagerError::RecordNotFound && final(self)@ == old(self)@,
            r is Ok ==> exists|i: int| #[trigger]
                first_at(old(self).requests(page_id), transaction_id, i) && final(self)@ == old(self)@.insert(
                    page_id,
                    (QueueView {
                        requests: settle(old(self).requests(page_id).remove(i)),
                        is_upgrading: old(self)@[page_id].is_upgrading && old(self).requests(
                            page_id,
                        )[i].lock_type != LockType::ExclusiveLock,
                    }),
                ),
    {
        let mut q = match self.queue(page_id) {
            Some(q) => q,
            None => {
                return Err(LockManagerError::RecordNotFound);
            },
        };
        let ghost s = q.requests@;
        assert(s == self.requests(page_id));
        let i: usize = match position(&q.requests, transaction_id) {
            Some(i) => i,
            None => {
                return Err(LockManagerError::RecordNotFound);
            },
        };
        if q.is_upgrading && q.requests[i].lock_type == LockType::ExclusiveLock {
            q.is_upgrading = false;
        }
        q.requests.remove(i);
        proof {
            assert(q.requests@ == s.remove(i as int));
            lemma_removed(s, i as int);
            lemma_settle_ok(s.remove(i as int));
        }
        grant_waiting(&mut q.requests);
        self.put(page_id, q);
        assert(first_at(s, transaction_id, i as int));
        Ok(())
    }

    /// Asks to turn a shared lock into an exclusive one. Only one upgrade of a
    /// page can wait at a time. Whoever holds or asks for an exclusive lock
    /// already has what it needs; otherwise the transaction gives up its lock and
    /// waits behind those that hold one, until a release grants the upgrade.
    /// Says whether nothing is left to wait for.
    pub fn upgrade_lock(&mut self, transaction_id: u64, page_id: u64) -> (r: Result<
        bool,
        LockManagerError,
    >)
        requires
            old(self).wf(),
        ensures
            final(self).wf(),
            ({
                let s = old(self).requests(page_id);
                &&& r == Err::<bool, LockManagerError>(LockManagerError::RecordNotFound)
                    <==> !queued(s, transaction_id)
                &&& forall|i: int| #[trigger]
                    first_at(s, transaction_id, i) ==> match s[i].lock_type {
                        LockType::ExclusiveLock => r == Ok::<bool, LockManagerError>(true),
                        LockType::SharedLock => {
                            if !s[i].is_granted {
                                r == Err::<bool, LockManagerError>(
                                    LockManagerError::InvalidLockState,
                                )
                            } else if old(self)@[page_id].is_upgrading {
                                r == Err::<bool, LockManagerError>(
                                    LockManagerError::UpgradeConflict,
                                )
                            } else {
                                &&& r == Ok::<bool, LockManagerError>(false)
                                &&& exists|p: int| #[trigger]
                                    upgrade_at(s.remove(i), p) && final(self)@ == old(self)@.insert(
                                        page_id,
                                        (QueueView {
                                            requests: s.remove(i).insert(
                                                p,
                                                upgrade_request(transaction_id),
                                            ),
                                            is_upgrading: true,
                                        }),
                                    )
                            }
                        },
                    }
            }),
            r != Ok::<bool, LockManagerError>(false) ==> final(self)@ == old(self)@,
    {
        let mut q = match self.queue(page_id) {
            Some(q) => q,
            None => {
                return Err(LockManagerError::RecordNotFound);
            },
        };
        let ghost s = q.requests@;
        assert(s == self.requests(page_id));
        let i: usize = match position(&q.requests, transaction_id) {
            Some(i) => i,
            None => {
                return Err(LockManagerError::RecordNotFound);
            },
        };
        assert forall|k: int| #[trigger] first_at(s, transaction_id, k) implies k == i by {}
        assert(first_at(s, transaction_id, i as int));
        if q.requests[i].lock_type == LockType::ExclusiveLock {
            return Ok(true);
        }
        if !q.requests[i].is_granted {
            return Err(LockManagerError::InvalidLockState);
        }
        if q.is_upgrading {
            return Err(LockManagerError::UpgradeConflict);
        }
        q.is_upgrading = true;
        q.requests.remove(i);
        let ghost t = s.remove(i as int);
        assert(q.requests@ == t);
        let mut p: usize = 0;
        while p < q.requests.len() && q.requests[p].is_granted
            invariant
                q.requests@ == t,
                p <= t.len(),
                forall|k: int| 0 <= k < p ==> (#[trigger] t[k]).is_granted,
            decreases q.requests.len() - p,
        {
            p = p + 1;
        }
        let request = LockRequest {
            transaction_id,
            lock_type: LockType::ExclusiveLock,
            is_granted: false,
        };
        q.requests.insert(p, request);
        proof {
            assert(upgrade_at(t, p as int));
            lemma_upgrade_ok(s, i as int, p as int, request);
        }
        self.put(page_id, q);
        Ok(false)
    }

    /// Says whether a waiting upgrade has been granted; once it has, the page can
    /// have another one.
    pub fn finish_upgrade(&mut self, transaction_id: u64, page_id: u64) -> (granted: bool)
        requires
            old(self).wf(),
        ensures
            final(self).wf(),
            granted == exists|i: int| #[trigger]
                first_at(old(self).requests(page_id), transaction_id, i) && old(self).requests(
                    page_id,
                )[i].is_granted,
            granted ==> final(self)@ == old(self)@.insert(
                page_id,
                (QueueView { is_upgrading: false, ..old(self)@[page_id] }),
            ),
            !granted ==> final(self)@ == old(self)@,
    {
        if !self.is_granted(transaction_id, page_id) {
            return false;
        }
        match self.queue(page_id) {
            Some(q) => {
                let mut q = q;
                q.is_upgrading = false;
                self.put(page_id, q);
                true
            },
            None => false,
        }
    }
}

proof fn lemma_upgrade_ok(s: Seq<LockRequest>, i: int, p: int, x: LockRequest)
    requires
        queue_ok(s),
        0 <= i < s.len(),
        upgrade_at(s.remove(i), p),
        !x.is_granted,
        x.lock_type == LockType::ExclusiveLock,
    ensures
        queue_ok(s.remove(i).insert(p, x)),
{
    lemma_removed(s, i);
    lemma_inserted(s.remove(i), p, x);
}

proof fn lemma_inserted(t: Seq<LockRequest>, p: int, x: LockRequest)
    requires
        in_order(t),
        upgrade_at(t, p),
        !x.is_granted,
        x.lock_type == LockType::ExclusiveLock,
    ensures
        queue_ok(t.insert(p, x)),
{
    let u = t.insert(p, x);
    assert forall|k: int| 0 <= k < u.len() implies (#[trigger] u[k]).is_granted == (k < p) by {
        if k < p {
            assert(u[k] == t[k]);
        } else if k > p {
            assert(u[k] == t[k - 1]);
            if t[k - 1].is_granted && k - 1 > p {
                assert(t[p].is_granted);
            }
        }
    }
    assert forall|a: int, b: int|
        0 <= a < u.len() && 0 <= b < u.len() && a != b && (#[trigger] u[a]).is_granted && (
        #[trigger] u[b]).is_granted implies u[a].lock_type == LockType::SharedLock by {
        assert(u[a] == t[a] && u[b] == t[b]);
    }
    assert forall|a: int| 0 <= a < u.len() && !(#[trigger] u[a]).is_granted implies exclusive_before(
        u,
        a + 1,
    ) by {
        assert(u[p].lock_type == LockType::ExclusiveLock);
    }
}

/// Who holds a lock once a release has been settled. Whoever held one still does. Of those
/// that waited, a shared request is granted exactly if all requests before it are shared as
/// well, and an exclusive one exactly if there is none before it. Nobody changes places.
pub proof fn law_grants_go_by_the_queue(s: Seq<LockRequest>, i: int)
    requires
        0 <= i < s.len(),
    ensures
        settle(s).len() == s.len(),
        settle(s)[i].transaction_id == s[i].transaction_id,
        settle(s)[i].lock_type == s[i].lock_type,
        s[i].is_granted ==> settle(s)[i].is_granted,
        !s[i].is_granted && s[i].lock_type == LockType::SharedLock ==> (settle(s)[i].is_granted
            <==> forall|k: int|
            0 <= k < i ==> (#[trigger] s[k]).lock_type == LockType::SharedLock),
        !s[i].is_granted && s[i].lock_type == LockType::ExclusiveLock ==> (settle(s)[i].is_granted
            <==> i == 0),
{
}

/// Nobody is kept waiting without reason: in a queue of shared requests alone everybody
/// holds a lock, and whoever is first does.
pub proof fn law_nobody_waits_without_reason(s: Seq<LockRequest>, i: int)
    requires
        queue_ok(s),
        0 <= i < s.len(),
        forall|k: int| 0 <= k <= i ==> (#[trigger] s[k]).lock_type == LockType::SharedLock,
    ensures
        s[i].is_granted,
{
}

/// An upgrade waits in front of everybody else who waits, and behind everybody who holds a
/// lock.
pub proof fn law_upgrades_wait_first(s: Seq<LockRequest>, p: int, i: int)
    requires
        in_order(s),
        upgrade_at(s, p),
        0 <= i < s.len(),
    ensures
        s[i].is_granted <==> i < p,
{
}

/// The request of a transaction that counts is its first.
pub proof fn law_first_requests_count(s: Seq<LockRequest>, txn: u64, i: int, j: int)
    requires
        first_at(s, txn, i),
        0 <= j < s.len(),
        s[j].transaction_id == txn,
    ensures
        i <= j,
        s[i].transaction_id == txn,
        upgrade_request(txn).transaction_id == txn,
        upgrade_request(txn).lock_type == LockType::ExclusiveLock,
        !upgrade_request(txn).is_granted,
{
}

} // verus!
