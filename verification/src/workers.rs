//! What the background threads decide: when to checkpoint and when to sweep. The
//! host runs the threads, sleeps, and passes on what woke them.

use vstd::prelude::*;

use crate::batch::Batch;
use crate::constants::{AUTOVACUUM_COST_DELAY_MS, AUTOVACUUM_DEAD_THRESHOLD};
use crate::engine::{batch_result, checkpoint_result, Engine};
use crate::error::EngineError;
use crate::key::Key;
use crate::pacing::{cleansed, law_batches_get_further, law_sweeps_begin, published, purged, Reach};
use crate::scan::KeyBound;
use crate::session::orderly;
use crate::transaction_manager::TransactionManager;

verus! {

/// What ended a wait for messages.
#[derive(Debug, Clone, Copy, PartialEq, Eq, Structural)]
pub enum Signal {
    /// The interval passed without a message.
    Timeout,
    /// The owner asked the thread to stop.
    Shutdown,
    /// The owner is gone.
    Disconnected,
}

/// What a thread does next.
#[derive(Debug, Clone, Copy, PartialEq, Eq, Structural)]
pub enum Wake {
    /// Its periodic work.
    Tick,
    /// Its last work.
    Shutdown,
}

/// A thread works on when its interval has passed. It stops when it is asked to,
/// and when nobody is left who could ask.
pub fn next_wake(signal: Signal) -> (w: Wake)
    ensures
        w == (if signal == Signal::Timeout {
            Wake::Tick
        } else {
            Wake::Shutdown
        }),
{
    match signal {
        Signal::Timeout => Wake::Tick,
        Signal::Shutdown => Wake::Shutdown,
        Signal::Disconnected => Wake::Shutdown,
    }
}

/// How a checkpoint went.
#[derive(Debug, Clone, Copy, PartialEq, Eq, Structural)]
pub enum CheckpointReport {
    /// Done; the redo point has moved since the last one.
    Complete(u64),
    /// Done; the redo point has not moved, so a changed page is held back, and the
    /// log will keep growing.
    Stalled(u64),
    /// Not done; the next tick tries again.
    Failed(EngineError),
}

/// The checkpointer: remembers the redo point of its last checkpoint.
#[derive(Debug)]
pub struct Checkpointer {
    pub last_redo: Option<u64>,
}

impl Checkpointer {
    pub fn new() -> (c: Checkpointer)
        ensures
            c.last_redo is None,
    {
        Checkpointer { last_redo: None }
    }

    /// Runs a checkpoint and tells whether the thread goes on. There is a last
    /// checkpoint on the way out.
    pub fn step<K: Key>(&mut self, engine: &mut Engine<K>, wake: Wake) -> (r: (
        CheckpointReport,
        bool,
    ))
        requires
            old(engine).wf(),
        ensures
            final(engine).wf(),
            r.1 == (wake == Wake::Tick),
            ({
                let done = match r.0 {
                    CheckpointReport::Complete(x) => Ok::<u64, EngineError>(x),
                    CheckpointReport::Stalled(x) => Ok::<u64, EngineError>(x),
                    CheckpointReport::Failed(e) => Err::<u64, EngineError>(e),
                };
                &&& checkpoint_result::<K>(*old(engine), *final(engine), done)
                &&& r.0 is Stalled <==> done is Ok && old(self).last_redo == Some(done->Ok_0)
                &&& final(self).last_redo == (match done {
                    Ok(x) => Some(x),
                    Err(_) => old(self).last_redo,
                })
            }),
    {
        let report = match engine.checkpoint() {
            Ok(redo) => {
                let stalled: bool = match self.last_redo {
                    Some(x) => x == redo,
                    None => false,
                };
                self.last_redo = Some(redo);
                if stalled {
                    CheckpointReport::Stalled(redo)
                } else {
                    CheckpointReport::Complete(redo)
                }
            },
            Err(e) => CheckpointReport::Failed(e),
        };
        (report, wake == Wake::Tick)
    }
}

/// How long to rest, in milliseconds, after a batch of a sweep that changed
/// `touched` pages: busy batches earn longer rests, clean batches none.
pub fn nap_ms(touched: usize) -> (ms: u64)
    ensures
        ms == AUTOVACUUM_COST_DELAY_MS * (if touched > u32::MAX {
            u32::MAX as int
        } else {
            touched as int
        }),
        touched <= u32::MAX ==> ms == 10 * touched,
{
    let n: u64 = if touched > u32::MAX as usize {
        u32::MAX as u64
    } else {
        touched as u64
    };
    AUTOVACUUM_COST_DELAY_MS * n
}

/// Whether enough dead versions have piled up for a sweep.
pub open spec fn sweep_due(tm: TransactionManager) -> bool {
    tm.dead_versions >= AUTOVACUUM_DEAD_THRESHOLD
}

/// The state in which a sweep starts: the dead versions so far are accounted for.
pub open spec fn counted<K: Key>(e: Engine<K>) -> Engine<K> {
    Engine { index: e.index, tm: (TransactionManager { dead_versions: 0, ..e.tm }) }
}

/// How a turn of the sweeper went.
#[derive(Debug)]
pub enum SweepReport {
    /// There was nothing to do, or nothing more.
    Idle,
    /// A batch has been swept and changed so many leaves; there are more to come.
    Batch(usize),
    /// A sweep has come to its end; so many versions went.
    Complete(u64),
    /// The sweep has been given up.
    Failed(EngineError),
}

/// A sweep under way: where it has to go on, how many versions went so far, and the
/// horizon that it began at.
#[derive(Debug)]
pub struct Sweep {
    pub from: KeyBound,
    pub gone: u64,
    pub horizon: u64,
}

/// The sweeper: remembers the sweep under way.
#[derive(Debug)]
pub struct Sweeper {
    pub under_way: Option<Sweep>,
}

/// The sum of two counts, as far as it goes.
pub open spec fn total(a: int, b: int) -> int {
    if a + b <= u64::MAX {
        a + b
    } else {
        u64::MAX as int
    }
}

fn add_up(a: u64, b: usize) -> (c: u64)
    ensures
        c == total(a as int, b as int),
{
    let b: u64 = b as u64;
    if b > u64::MAX - a {
        u64::MAX
    } else {
        a + b
    }
}

/// The state in which a turn of the sweeper starts its work.
pub open spec fn turn_start<K: Key>(s: Sweeper, e: Engine<K>) -> Engine<K> {
    if s.under_way is Some {
        e
    } else {
        counted(e)
    }
}

/// The sweep that a turn of the sweeper works on: the one under way, or a new one.
pub open spec fn turn_sweep<K: Key>(s: Sweeper, e: Engine<K>) -> Sweep {
    match s.under_way {
        Some(w) => w,
        None => Sweep { from: KeyBound::Unbounded, gone: 0, horizon: e.tm.horizon() },
    }
}

/// What a turn of the sweeper that has something to do does: it sweeps a batch. After the
/// last one it publishes the horizon that the sweep began at.
pub open spec fn turn_result<K: Key>(
    s0: Sweeper,
    s: Sweeper,
    before: Engine<K>,
    after: Engine<K>,
    report: SweepReport,
) -> bool {
    let start = turn_start(s0, before);
    let w = turn_sweep(s0, start);
    exists|mid: Engine<K>, done: Result<Batch, EngineError>| #[trigger]
        batch_result::<K>(start, mid, &w.from, done) && match done {
            Err(e) => {
                &&& report == SweepReport::Failed(e)
                &&& s.under_way is None
                &&& after == mid
            },
            Ok(b) => {
                let gone = total(w.gone as int, b.gone as int);
                match b.next {
                    Some(k) => {
                        &&& report == SweepReport::Batch(b.touched)
                        &&& s.under_way matches Some(next) && next.from == KeyBound::Included(k)
                            && next.gone == gone && next.horizon == w.horizon
                        &&& after == mid
                    },
                    None => {
                        &&& report matches SweepReport::Complete(n) && n == gone
                        &&& s.under_way is None
                        &&& after.index == mid.index
                        &&& published(mid.tm, after.tm, w.horizon)
                    },
                }
            },
        }
}

/// A sweep is due by the count of dead versions alone, whoever is running.
pub proof fn law_sweeps_are_due_by_count(tm: TransactionManager)
    ensures
        sweep_due(tm) <==> tm.dead_versions >= 1_000,
{
}

/// How far the sweep under way has come.
pub open spec fn come_to(s: Sweeper) -> Reach {
    match s.under_way {
        Some(w) => match w.from {
            KeyBound::Included(k) => Reach::Below(k@),
            _ => Reach::Nothing,
        },
        None => Reach::Nothing,
    }
}

/// The turns of the sweeper make up a sweep. The first one sets the count of dead versions
/// back and fixes the horizon; each one goes on where the one before it stopped, whatever
/// others did in between; and when it is complete, no version is left whose deleter lies
/// below the horizon, that horizon has been published, and the next turn begins anew. A
/// sweep is given up only for want of numbers.
pub proof fn law_turns_make_up_a_sweep<K: Key>(
    s0: Sweeper,
    s: Sweeper,
    before: Engine<K>,
    after: Engine<K>,
    report: SweepReport,
    h: u64,
)
    requires
        before.wf(),
        orderly(before.tm),
        turn_result::<K>(s0, s, before, after, report),
        match s0.under_way {
            Some(w) => {
                &&& w.from is Included
                &&& h == w.horizon
                &&& cleansed(before, h, come_to(s0))
                &&& purged(before, h, come_to(s0))
            },
            None => h == before.tm.horizon(),
        },
    ensures
        after.tm.dead_versions == (if s0.under_way is None {
            0
        } else {
            before.tm.dead_versions
        }),
        match report {
            SweepReport::Batch(_) => {
                &&& s.under_way matches Some(w) && w.from is Included && w.horizon == h
                &&& cleansed(after, h, come_to(s))
                &&& purged(after, h, come_to(s))
                &&& after.tm.vacuum_horizon == before.tm.vacuum_horizon
                &&& {
                    let gone = before.index.records().len() - after.index.records().len() + if s0.under_way is Some {
                        s0.under_way->0.gone as int
                    } else {
                        0
                    };
                    gone <= u64::MAX ==> s.under_way->0.gone == gone
                }
            },
            SweepReport::Complete(n) => {
                &&& {
                    let gone = before.index.records().len() - after.index.records().len() + if s0.under_way is Some {
                        s0.under_way->0.gone as int
                    } else {
                        0
                    };
                    gone <= u64::MAX ==> n == gone
                }
                &&& s.under_way is None
                &&& purged(after, h, Reach::All)
                &&& after.tm.vacuum_horizon >= h
                &&& after.tm.vacuum_horizon == h || after.tm.vacuum_horizon
                    == before.tm.vacuum_horizon
            },
            SweepReport::Failed(e) => s.under_way is None && e == EngineError::OutOfNumbers
                && after.index.records() == before.index.records(),
            SweepReport::Idle => false,
        },
{
    let start = turn_start(s0, before);
    let w = turn_sweep(s0, start);
    let (mid, done) = choose|mid: Engine<K>, done: Result<Batch, EngineError>| #[trigger]
        batch_result::<K>(start, mid, &w.from, done) && match done {
            Err(e) => {
                &&& report == SweepReport::Failed(e)
                &&& s.under_way is None
                &&& after == mid
            },
            Ok(b) => {
                let gone = total(w.gone as int, b.gone as int);
                match b.next {
                    Some(k) => {
                        &&& report == SweepReport::Batch(b.touched)
                        &&& s.under_way matches Some(next) && next.from == KeyBound::Included(k)
                            && next.gone == gone && next.horizon == w.horizon
                        &&& after == mid
                    },
                    None => {
                        &&& report matches SweepReport::Complete(n) && n == gone
                        &&& s.under_way is None
                        &&& after.index == mid.index
                        &&& published(mid.tm, after.tm, w.horizon)
                    },
                }
            },
        };
    assert(start.tm.horizon() == before.tm.horizon());
    assert(start.tm.aborts() == before.tm.aborts());
    if done is Ok {
        law_sweeps_begin::<K>(start);
        law_batches_get_further::<K>(start, mid, w.from, done->Ok_0, h, come_to(s0));
    }
}

impl Sweeper {
    pub fn new() -> (s: Sweeper)
        ensures
            s.under_way is None,
    {
        Sweeper { under_way: None }
    }

    /// One turn of the sweeper. On a tick it begins a sweep if enough dead versions have
    /// piled up, or goes on with the one under way, by one batch. The host rests after a
    /// batch, the longer the more leaves it changed, and then passes on what woke it. The
    /// sweeper stops in the middle of a sweep and without a last one: sweeping can always
    /// be done later. Tells how it went, and whether the thread goes on.
    pub fn step<K: Key>(&mut self, engine: &mut Engine<K>, wake: Wake) -> (r: (SweepReport, bool))
        requires
            old(engine).wf(),
        ensures
            final(engine).wf(),
            r.1 == (wake == Wake::Tick),
            r.0 is Idle <==> wake == Wake::Shutdown || (old(self).under_way is None && !sweep_due(
                old(engine).tm,
            )),
            r.0 is Idle <==> wake == Wake::Shutdown || (old(self).under_way is None && old(
                engine,
            ).tm.dead_versions < 1_000),
            r.0 is Idle ==> *final(engine) == *old(engine) && *final(self) == *old(self),
            r.0 !is Idle ==> turn_result::<K>(
                *old(self),
                *final(self),
                *old(engine),
                *final(engine),
                r.0,
            ),
    {
        match wake {
            Wake::Shutdown => {
                return (SweepReport::Idle, false);
            },
            Wake::Tick => {},
        }
        if self.under_way.is_none() && engine.tm.dead_versions() < AUTOVACUUM_DEAD_THRESHOLD {
            return (SweepReport::Idle, true);
        }
        let ghost s0 = *self;
        let ghost e0 = *engine;
        let sweep: Sweep = match self.under_way.take() {
            Some(sweep) => sweep,
            None => {
                let _ = engine.tm.take_dead_versions();
                let horizon: u64 = engine.tm.global_xmin();
                Sweep { from: KeyBound::Unbounded, gone: 0, horizon }
            },
        };
        let ghost start = *engine;
        assert(start == turn_start(s0, e0));
        assert(sweep == turn_sweep(s0, start));
        let done = engine.vacuum_batch(&sweep.from);
        let ghost mid = *engine;
        assert(batch_result::<K>(start, mid, &sweep.from, done));
        match done {
            Err(e) => (SweepReport::Failed(e), true),
            Ok(b) => {
                let gone: u64 = add_up(sweep.gone, b.gone);
                match b.next {
                    Some(k) => {
                        let horizon: u64 = sweep.horizon;
                        self.under_way = Some(Sweep { from: KeyBound::Included(k), gone, horizon });
                        (SweepReport::Batch(b.touched), true)
                    },
                    None => {
                        if sweep.horizon > engine.tm.vacuum_horizon() {
                            engine.tm.publish_vacuum_horizon(sweep.horizon);
                        }
                        (SweepReport::Complete(gone), true)
                    },
                }
            },
        }
    }
}

} // verus!
