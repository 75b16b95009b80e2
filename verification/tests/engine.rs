use fluxdb::checkpoint::parse_checkpoint;
use fluxdb::constants::{
    AUTOVACUUM_DEAD_THRESHOLD, MAX_VALUE_SIZE, PAGE_SIZE, VACUUM_BATCH_MAX_LEAVES,
};
use fluxdb::disk::{DiskManager, IoAction};
use fluxdb::engine::Engine;
use fluxdb::error::{BufferPoolError, EngineError, IndexError, WalError};
use fluxdb::key::ByteKey;
use fluxdb::manager::BufferPoolManager;
use fluxdb::page::page_lsn;
use fluxdb::recovery::{read_log, verify_pages, RecoveryManager};
use fluxdb::scan::KeyBound;
use fluxdb::transaction_manager::TransactionManager;
use fluxdb::wal::{Wal, WalIterator, WalRecord, WalRecordType};
use fluxdb::workers::{
    nap_ms, next_wake, CheckpointReport, Checkpointer, Signal, SweepReport, Sweeper, Wake,
};

type TestEngine = Engine<ByteKey>;

/// The files of a database.
#[derive(Clone, Default)]
struct Files {
    pages: Vec<Vec<u8>>,
    log: Vec<u8>,
}

impl Files {
    /// Does what an engine has asked for.
    fn apply(&mut self, e: &mut TestEngine) {
        for action in e.take_actions() {
            self.perform(action);
        }
    }

    fn perform(&mut self, action: IoAction) {
        match action {
            IoAction::AppendLog(bytes) => self.log.extend_from_slice(&bytes),
            IoAction::WritePage(id, bytes) => {
                while self.pages.len() <= id as usize {
                    self.pages.push(vec![0; PAGE_SIZE]);
                }
                self.pages[id as usize] = bytes;
            }
            IoAction::SyncLog | IoAction::SyncData => {}
        }
    }

    /// Opens the database; a torn end of the log is cut off.
    fn open(&mut self) -> Result<TestEngine, EngineError> {
        let (wal, len) = match Wal::new(self.log.clone()) {
            Ok(x) => x,
            Err(e) => return Err(EngineError::Index(IndexError::Wal(e))),
        };
        self.log.truncate(len);
        let records = read_log(self.log.clone()).unwrap();
        Engine::open(DiskManager::open(self.pages.clone()), wal, records)
    }
}

fn key(i: u32) -> [u8; 4] {
    i.to_be_bytes()
}

#[test]
fn split_sized_survival() {
    let mut files = Files::default();
    let mut e = TestEngine::create();
    for i in 0u32..500 {
        e.insert(&key(i), &(i * 7).to_be_bytes(), 0).unwrap();
    }
    files.apply(&mut e); // crash: drop the engine
    let mut e = files.open().unwrap();
    for i in 0u32..500 {
        assert_eq!(e.get(&key(i)).unwrap().as_deref(), Some(&(i * 7).to_be_bytes()[..]));
    }
}

#[test]
fn delete_survives_crash() {
    let mut files = Files::default();
    let mut e = TestEngine::create();
    e.insert(b"k", b"v", 0).unwrap();
    e.delete(b"k", 0).unwrap();
    files.apply(&mut e); // crash
    let mut e = files.open().unwrap();
    assert_eq!(e.get(b"k").unwrap(), None);
}

#[test]
fn update_survives_crash() {
    let mut files = Files::default();
    let mut e = TestEngine::create();
    e.insert(b"k", b"v1", 0).unwrap();
    e.update(b"k", b"v2", 0).unwrap();
    files.apply(&mut e); // crash
    let mut e = files.open().unwrap();
    assert_eq!(e.get(b"k").unwrap(), Some(b"v2".to_vec()));
}

#[test]
fn double_recovery_is_idempotent() {
    let mut files = Files::default();
    let mut e = TestEngine::create();
    for i in 0u32..300 {
        e.insert(&key(i), &key(i), 0).unwrap();
    }
    files.apply(&mut e);
    // crash
    let mut e = files.open().unwrap();
    for i in 0u32..300 {
        assert_eq!(e.get(&key(i)).unwrap().as_deref(), Some(&i.to_be_bytes()[..]));
    }
    files.apply(&mut e);
    // drop — no new writes
    let mut e = files.open().unwrap();
    for i in 0u32..300 {
        assert_eq!(e.get(&key(i)).unwrap().as_deref(), Some(&i.to_be_bytes()[..]));
    }
}

#[test]
fn torn_tail_truncates_last_record() {
    let mut files = Files::default();
    let mut e = TestEngine::create();
    for i in 0u32..20 {
        e.insert(&key(i), &key(i), 0).unwrap();
    }
    files.apply(&mut e); // crash
    files.log.pop();

    // The torn tail is cut off; recovery sees Insert(19) but no Commit and aborts it.
    let mut e = files.open().unwrap();
    for i in 0u32..19 {
        assert!(e.get(&key(i)).unwrap().is_some());
    }
    assert!(e.get(&key(19)).unwrap().is_none()); // last record truncated
}

#[test]
fn create_insert_close_then_reopen_sees_data() {
    let mut files = Files::default();
    let mut e = TestEngine::create();
    e.insert(b"k1", b"v1", 0).unwrap();
    assert_eq!(e.get(b"k1").unwrap().as_deref(), Some(b"v1".as_ref()));
    // A clean shutdown takes a last checkpoint.
    let (report, goes_on) = Checkpointer::new().step(&mut e, next_wake(Signal::Shutdown));
    assert!(matches!(report, CheckpointReport::Complete(_)));
    assert!(!goes_on);
    files.apply(&mut e);

    // Reopen: recovery replays the WAL; the row is still there.
    let mut e = files.open().unwrap();
    assert_eq!(e.get(b"k1").unwrap().as_deref(), Some(b"v1".as_ref()));
}

#[test]
fn drop_without_close_still_shuts_down() {
    let mut files = Files::default();
    let mut e = TestEngine::create();
    e.insert(b"k", b"v", 0).unwrap();
    // The channel of the checkpointer is gone: it runs its last checkpoint.
    let (_, goes_on) = Checkpointer::new().step(&mut e, next_wake(Signal::Disconnected));
    assert!(!goes_on);
    files.apply(&mut e);
    let mut e = files.open().unwrap();
    assert_eq!(e.get(b"k").unwrap().as_deref(), Some(b"v".as_ref()));
}

#[test]
fn test_checkpoint_record_written() {
    let mut files = Files::default();
    let mut engine = TestEngine::create();

    // Transaction IDs are allocated sequentially starting at 1.
    // 1. A committed transaction (txn_id = 1)
    engine.insert(b"k1", b"v1", 0).unwrap();

    // 2. An aborted transaction (txn_id = 2)
    {
        let mut txn = engine.begin(0);
        txn.insert(&mut engine, b"k2", b"v2").unwrap();
        txn.abort(&mut engine);
    }

    // 3. An active transaction (txn_id = 3) — kept alive across checkpoint
    let _active_handle = engine.begin(0);
    let expected_active_txn_id: u64 = 3;
    let expected_aborted_txn_id: u64 = 2;

    engine.checkpoint().expect("Checkpoint failed");

    // Read back the WAL and find the Checkpoint record
    files.apply(&mut engine);
    let mut iter = WalIterator::new(files.log.clone());

    let mut found_checkpoint = false;
    while let Some(record) = iter.next_record() {
        let record = record.expect("Failed to read record");
        if record.entry_type == WalRecordType::Checkpoint {
            found_checkpoint = true;
            let data = record.main_data.expect("Checkpoint should have main data");

            // Fixed-size header = 5 × 8 = 40 bytes
            // + active_len (4) + aborted_len (4) = 48 minimum
            assert!(data.len() >= 48, "Checkpoint payload too small");

            // Parse the fixed fields
            let _redo_point = u64::from_le_bytes(data[0..8].try_into().unwrap());
            let next_txn_id = u64::from_le_bytes(data[8..16].try_into().unwrap());

            // 1 committed + 1 aborted + 1 active = 3 txns consumed,
            // so next_txn_id should be at least 4.
            assert!(
                next_txn_id >= 4,
                "next_txn_id should be >= 4, got {next_txn_id}"
            );

            let _vacuum_horizon = u64::from_le_bytes(data[16..24].try_into().unwrap());
            let _root_pid = u64::from_le_bytes(data[24..32].try_into().unwrap());
            let _next_page_id = u64::from_le_bytes(data[32..40].try_into().unwrap());

            // Parse active set
            let active_len = u32::from_le_bytes(data[40..44].try_into().unwrap()) as usize;
            let mut offset = 44;
            let mut active_txns = Vec::new();
            for _ in 0..active_len {
                active_txns.push(u64::from_le_bytes(
                    data[offset..offset + 8].try_into().unwrap(),
                ));
                offset += 8;
            }

            assert_eq!(active_len, 1, "expected exactly 1 active transaction");
            assert!(
                active_txns.contains(&expected_active_txn_id),
                "active set should contain txn {expected_active_txn_id}, \
                 got {active_txns:?}"
            );

            // Parse pinned-aborted set
            let aborted_len =
                u32::from_le_bytes(data[offset..offset + 4].try_into().unwrap()) as usize;
            offset += 4;
            let mut aborted_txns = Vec::new();
            for _ in 0..aborted_len {
                aborted_txns.push(u64::from_le_bytes(
                    data[offset..offset + 8].try_into().unwrap(),
                ));
                offset += 8;
            }

            assert!(aborted_len >= 1, "expected at least 1 aborted transaction");
            assert!(
                aborted_txns.contains(&expected_aborted_txn_id),
                "pinned-aborted set should contain txn \
                 {expected_aborted_txn_id}, got {aborted_txns:?}"
            );

            // Verify we consumed all bytes
            assert_eq!(
                offset,
                data.len(),
                "unparsed trailing bytes in checkpoint payload"
            );

            let parsed = parse_checkpoint(&Some(data)).unwrap();
            assert_eq!(parsed.active_txns, active_txns);
            assert_eq!(parsed.pinned_aborted, aborted_txns);
        }
    }

    assert!(found_checkpoint, "Checkpoint record not found in WAL");
}

#[test]
fn test_checkpoint_recovery() {
    let mut files = Files::default();
    let mut engine = TestEngine::create();

    // 1. Insert and commit a record
    engine.insert(b"k1", b"v1", 0).unwrap();

    // 2. Start an active transaction and insert, but do NOT commit
    let mut active_txn = engine.begin(0);
    active_txn.insert(&mut engine, b"k2", b"v2").unwrap();

    // 3. Start a transaction, insert, and abort (to test pinned_aborted seeding)
    let mut aborted_txn = engine.begin(0);
    aborted_txn.insert(&mut engine, b"k3", b"v3").unwrap();
    aborted_txn.abort(&mut engine);

    // 4. Force checkpoint
    engine.checkpoint().expect("Checkpoint failed");

    // 5. Simulate a ghost transaction: does work, but page flushes happen,
    //    so its WAL records are below the redo point. Then it crashes.
    let mut ghost_txn = engine.begin(0);
    ghost_txn.insert(&mut engine, b"k4", b"v4").unwrap();
    engine.flush_all_pages();
    engine.checkpoint().expect("Checkpoint 2 failed");

    // "Crash": the engine is gone without a clean shutdown
    files.apply(&mut engine);

    // 6. Recover the engine
    let mut engine = files.open().expect("Recovery failed");

    // 7. Assertions

    // k1 should be visible (committed)
    let v1 = engine.get(b"k1").unwrap();
    assert_eq!(v1, Some(b"v1".to_vec()));

    // k2 should NOT be visible (active_txn crash victim)
    let v2 = engine.get(b"k2").unwrap();
    assert_eq!(v2, None, "k2 should be aborted as a crash victim");

    // k3 should NOT be visible (aborted_txn seeded from checkpoint)
    let v3 = engine.get(b"k3").unwrap();
    assert_eq!(v3, None, "k3 should be aborted from pinned_aborted seed");

    // k4 should NOT be visible (ghost_txn caught by active_txns union)
    let v4 = engine.get(b"k4").unwrap();
    assert_eq!(
        v4, None,
        "k4 should be aborted as a ghost transaction crash victim"
    );
}

#[test]
fn stale_snapshot_update_stays_coherent() {
    let mut e = TestEngine::create();
    let k = 1u32.to_le_bytes();
    e.insert(&k, &0u32.to_le_bytes(), 0).unwrap();

    let mut t = e.begin(0);
    e.update(&k, &100u32.to_le_bytes(), 0).unwrap(); // C commits after T's snapshot

    let updated = matches!(t.update(&mut e, &k, &200u32.to_le_bytes()), Ok(()));
    let t_ok = t.commit(&mut e).is_ok() && updated;
    let final_val = u32::from_le_bytes(e.get(&k).unwrap().unwrap().try_into().unwrap());

    println!("T.update+commit ok = {t_ok}, final value = {final_val}");

    if t_ok {
        // T believes it committed 200 → read-your-committed-write demands 200.
        assert_eq!(
            final_val, 200,
            "CORRUPTION: T's update returned Ok and committed, but the key reads \
             {final_val}. Two live versions coexist (C's 100 shadows T's 200) — \
             the single-visible-version invariant is broken."
        );
    } else {
        // T conflicted → C's value stands.
        assert_eq!(final_val, 100, "T conflicted, so C's committed 100 must stand");
    }
}

#[test]
fn stale_snapshot_update_must_report_conflict() {
    let mut e = TestEngine::create();
    let k = 1u32.to_le_bytes();
    e.insert(&k, &0u32.to_le_bytes(), 0).unwrap();

    let mut t = e.begin(0);
    e.update(&k, &100u32.to_le_bytes(), 0).unwrap();

    match t.update(&mut e, &k, &200u32.to_le_bytes()) {
        Err(EngineError::TransactionConflict) => { /* correct: stale writer loses to committed C */ }
        Err(other) => panic!("expected TransactionConflict, got {other:?}"),
        Ok(()) => panic!(
            "stale second writer got Ok — a write over a committed-superseded version \
             must fail with WriteConflict/TransactionConflict"
        ),
    }
}

#[test]
fn pinned_global_xmin_stalls_reclamation_and_is_observable() {
    let mut engine = TestEngine::create();

    // The culprit: opened before the deletes, then "forgotten".
    let pin = engine.begin(0);

    const N: usize = 100;
    let keys: Vec<Vec<u8>> = (0..N).map(|i| format!("k{i:03}").into_bytes()).collect();
    let mut txn = engine.begin(1);
    for key in &keys {
        txn.insert(&mut engine, key.as_slice(), b"v").unwrap();
    }
    txn.commit(&mut engine).unwrap();
    let mut txn = engine.begin(2);
    for key in &keys {
        txn.delete(&mut engine, key.as_slice()).unwrap();
    }
    txn.commit(&mut engine).unwrap();

    // Pinned: a full sweep completes but reclaims nothing — every dead
    // version postdates the culprit's snapshot — and the stat reports it.
    assert_eq!(engine.vacuum().unwrap(), 0);
    let stalled_horizon = engine.tm.vacuum_horizon();
    let age = engine.tm.oldest_active_txn_age(3).expect("open transaction must be reported");
    assert!(age > 0);

    // Finish the culprit: the very same sweep now reclaims everything and
    // the horizon moves past where the stall held it.
    pin.commit(&mut engine).unwrap();
    assert_eq!(engine.tm.oldest_active_txn_age(4), None);
    assert_eq!(engine.vacuum().unwrap(), N);
    assert!(engine.tm.vacuum_horizon() > stalled_horizon);
}

#[test]
fn the_sweeper_acts_when_enough_versions_are_dead() {
    let mut engine = TestEngine::create();
    let n = AUTOVACUUM_DEAD_THRESHOLD as usize + 1;
    let keys: Vec<Vec<u8>> = (0..n).map(|i| format!("k{i:05}").into_bytes()).collect();
    let mut txn = engine.begin(0);
    for key in &keys {
        txn.insert(&mut engine, key.as_slice(), b"v").unwrap();
    }
    txn.commit(&mut engine).unwrap();
    let mut sweeper = Sweeper::new();
    assert!(matches!(sweeper.step(&mut engine, Wake::Tick), (SweepReport::Idle, true)));
    let mut txn = engine.begin(0);
    for key in &keys {
        txn.delete(&mut engine, key.as_slice()).unwrap();
    }
    txn.commit(&mut engine).unwrap();
    assert!(engine.tm.dead_versions() >= AUTOVACUUM_DEAD_THRESHOLD);
    assert!(matches!(sweeper.step(&mut engine, Wake::Shutdown), (SweepReport::Idle, false)));

    let (swept, goes_on) = sweeper.step(&mut engine, Wake::Tick);
    assert!(matches!(swept, SweepReport::Complete(dead) if dead == n as u64));
    assert!(goes_on);
    assert!(engine.tm.dead_versions() < AUTOVACUUM_DEAD_THRESHOLD);
    assert!(engine.tm.vacuum_horizon() != 0);
}

#[test]
fn a_checkpoint_that_cannot_move_the_redo_point_is_reported() {
    let mut e = TestEngine::create();
    e.insert(b"k", b"v", 0).unwrap();
    e.insert(b"l", b"v", 0).unwrap();
    let mut c = Checkpointer::new();
    let (first, _) = c.step(&mut e, Wake::Tick);
    let (second, goes_on) = c.step(&mut e, Wake::Tick);
    assert!(matches!(first, CheckpointReport::Complete(_)));
    assert!(matches!(second, CheckpointReport::Stalled(_)));
    assert!(goes_on);
    e.flush_all_pages();
    let (third, _) = c.step(&mut e, Wake::Tick);
    assert!(matches!(third, CheckpointReport::Complete(_)));
}

#[test]
fn rests_grow_with_the_work() {
    assert_eq!(nap_ms(0), 0);
    assert_eq!(nap_ms(3), 3 * nap_ms(1));
}

#[test]
fn an_older_writer_waits_and_a_younger_one_dies() {
    let mut e = TestEngine::create();
    e.insert(b"k", b"v", 0).unwrap();
    let mut old = e.begin(0);
    let mut young = e.begin(0);
    let old_id = old.txn.as_ref().unwrap().txn_id;
    let young_id = young.txn.as_ref().unwrap().txn_id;
    assert!(old_id < young_id);

    young.update(&mut e, b"k", b"young").unwrap();
    assert_eq!(old.update(&mut e, b"k", b"old"), Err(EngineError::WaitFor(young_id)));
    young.abort(&mut e);
    old.update(&mut e, b"k", b"old").unwrap();

    let mut third = e.begin(0);
    assert_eq!(
        third.update(&mut e, b"k", b"third"),
        Err(EngineError::TransactionConflict)
    );
    // The handle is poisoned: everything fails until it is given up.
    assert_eq!(
        third.insert(&mut e, b"other", b"v"),
        Err(EngineError::TransactionConflict)
    );
    assert_eq!(third.commit(&mut e), Err(EngineError::TransactionConflict));
    old.commit(&mut e).unwrap();
    assert_eq!(e.get(b"k").unwrap(), Some(b"old".to_vec()));
}

#[test]
fn a_transaction_reads_its_own_writes_and_nobody_elses() {
    let mut e = TestEngine::create();
    let mut a = e.begin(0);
    let mut b = e.begin(0);
    a.insert(&mut e, b"k", b"a").unwrap();
    assert_eq!(a.get(&mut e, b"k").unwrap(), Some(b"a".to_vec()));
    assert_eq!(b.get(&mut e, b"k").unwrap(), None);
    assert_eq!(e.get(b"k").unwrap(), None);
    a.commit(&mut e).unwrap();
    assert_eq!(b.get(&mut e, b"k").unwrap(), None);
    assert_eq!(e.get(b"k").unwrap(), Some(b"a".to_vec()));
    b.commit(&mut e).unwrap();
}

#[test]
fn errors_of_the_index_come_through() {
    let mut e = TestEngine::create();
    assert_eq!(
        e.delete(b"nope", 0),
        Err(EngineError::Index(IndexError::KeyNotFound))
    );
    e.insert(b"k", b"v", 0).unwrap();
    assert_eq!(
        e.insert(b"k", b"w", 0),
        Err(EngineError::Index(IndexError::DuplicateKey))
    );
}

#[test]
fn long_values_survive_a_crash() {
    let mut files = Files::default();
    let mut e = TestEngine::create();
    for i in 0u32..30 {
        e.insert(&key(i), &vec![i as u8; MAX_VALUE_SIZE], 0).unwrap();
    }
    for i in 0u32..30 {
        e.update(&key(i), &vec![!(i as u8); MAX_VALUE_SIZE], 0).unwrap();
    }
    e.vacuum().unwrap();
    files.apply(&mut e);
    let mut e = files.open().unwrap();
    for i in 0u32..30 {
        assert_eq!(e.get(&key(i)).unwrap(), Some(vec![!(i as u8); MAX_VALUE_SIZE]));
    }
}

#[test]
fn a_database_without_records_opens() {
    let mut files = Files::default();
    let mut e = TestEngine::create();
    files.apply(&mut e);
    assert!(files.log.is_empty());
    let mut e = files.open().unwrap();
    assert_eq!(e.get(b"k").unwrap(), None);
    e.insert(b"k", b"v", 0).unwrap();
    files.apply(&mut e);
    let mut e = files.open().unwrap();
    assert_eq!(e.get(b"k").unwrap(), Some(b"v".to_vec()));
}

#[test]
fn work_goes_on_after_recovery() {
    let mut files = Files::default();
    let mut e = TestEngine::create();
    for round in 0u32..4 {
        for i in 0u32..150 {
            e.insert(&key(round * 1000 + i), &key(i), 0).unwrap();
        }
        if round % 2 == 1 {
            e.flush_all_pages();
            e.checkpoint().unwrap();
        }
        files.apply(&mut e);
        e = files.open().unwrap();
    }
    for round in 0u32..4 {
        for i in 0u32..150 {
            assert_eq!(e.get(&key(round * 1000 + i)).unwrap().as_deref(), Some(&key(i)[..]));
        }
    }
}

#[test]
fn a_damaged_page_is_reported_when_the_database_is_opened() {
    let mut files = Files::default();
    let mut e = TestEngine::create();
    e.insert(b"k", b"v", 0).unwrap();
    e.flush_all_pages();
    files.apply(&mut e);
    files.pages[1][200] ^= 0x10;
    let disk = DiskManager::open(files.pages.clone());
    assert!(matches!(
        verify_pages(&disk),
        Err(BufferPoolError::PageCorruption { page_id: 1, .. })
    ));
    assert!(matches!(
        files.open(),
        Err(EngineError::Index(IndexError::BufferPool(BufferPoolError::PageCorruption { page_id: 1, .. })))
    ));
}

#[test]
fn reads_repeat_whatever_others_do() {
    let mut e = TestEngine::create();
    e.insert(b"kept", b"old", 0).unwrap();
    e.insert(b"gone", b"old", 0).unwrap();
    let mut a = e.begin(0);
    for round in 0..2 {
        assert_eq!(a.get(&mut e, b"kept").unwrap(), Some(b"old".to_vec()));
        assert_eq!(a.get(&mut e, b"gone").unwrap(), Some(b"old".to_vec()));
        assert_eq!(a.get(&mut e, b"new").unwrap(), None);
        if round == 0 {
            e.update(b"kept", b"changed", 0).unwrap();
            e.delete(b"gone", 0).unwrap();
            e.insert(b"new", b"value", 0).unwrap();
            let mut b = e.begin(0);
            b.update(&mut e, b"kept", b"unfinished").unwrap();
            b.abort(&mut e);
            e.vacuum().unwrap();
        }
    }
    a.commit(&mut e).unwrap();
    assert_eq!(e.get(b"kept").unwrap(), Some(b"changed".to_vec()));
    assert_eq!(e.get(b"gone").unwrap(), None);
    assert_eq!(e.get(b"new").unwrap(), Some(b"value".to_vec()));
}

#[test]
fn a_key_that_was_committed_meanwhile_is_a_duplicate() {
    let mut e = TestEngine::create();
    let mut t = e.begin(0);
    e.insert(b"k", b"first", 0).unwrap();
    assert_eq!(t.get(&mut e, b"k").unwrap(), None);
    assert_eq!(
        t.insert(&mut e, b"k", b"second"),
        Err(EngineError::Index(IndexError::DuplicateKey))
    );
    t.commit(&mut e).unwrap();
    assert_eq!(e.get(b"k").unwrap(), Some(b"first".to_vec()));
}

#[test]
fn an_insertion_that_waited_finds_the_key_or_its_place() {
    let mut e = TestEngine::create();
    let mut t = e.begin(0);
    let mut b = e.begin(0);
    let id = b.txn.as_ref().unwrap().txn_id;
    b.insert(&mut e, b"k", b"b").unwrap();
    assert_eq!(t.insert(&mut e, b"k", b"t"), Err(EngineError::WaitFor(id)));
    b.abort(&mut e);
    t.insert(&mut e, b"k", b"t").unwrap();
    t.commit(&mut e).unwrap();
    assert_eq!(e.get(b"k").unwrap(), Some(b"t".to_vec()));

    let mut t = e.begin(0);
    let mut b = e.begin(0);
    let id = b.txn.as_ref().unwrap().txn_id;
    b.insert(&mut e, b"l", b"b").unwrap();
    assert_eq!(t.insert(&mut e, b"l", b"t"), Err(EngineError::WaitFor(id)));
    b.commit(&mut e).unwrap();
    assert_eq!(
        t.insert(&mut e, b"l", b"t"),
        Err(EngineError::Index(IndexError::DuplicateKey))
    );
    t.commit(&mut e).unwrap();
    assert_eq!(e.get(b"l").unwrap(), Some(b"b".to_vec()));
}

#[test]
fn a_deleted_key_can_be_inserted_again() {
    let mut e = TestEngine::create();
    e.insert(b"k", b"1", 0).unwrap();
    let mut t = e.begin(0);
    t.delete(&mut e, b"k").unwrap();
    assert_eq!(t.get(&mut e, b"k").unwrap(), None);
    t.insert(&mut e, b"k", b"2").unwrap();
    t.update(&mut e, b"k", b"3").unwrap();
    assert_eq!(t.get(&mut e, b"k").unwrap(), Some(b"3".to_vec()));
    assert_eq!(e.get(b"k").unwrap(), Some(b"1".to_vec()));
    t.commit(&mut e).unwrap();
    assert_eq!(e.get(b"k").unwrap(), Some(b"3".to_vec()));
    e.delete(b"k", 0).unwrap();
    e.insert(b"k", b"4", 0).unwrap();
    assert_eq!(e.get(b"k").unwrap(), Some(b"4".to_vec()));
}

#[test]
fn a_crash_keeps_what_was_committed_and_nothing_else() {
    let mut files = Files::default();
    let mut e = TestEngine::create();
    e.insert(b"a", b"1", 0).unwrap();
    e.insert(b"b", b"1", 0).unwrap();
    let mut lost = e.begin(0);
    lost.update(&mut e, b"a", b"2").unwrap();
    lost.delete(&mut e, b"b").unwrap();
    lost.insert(&mut e, b"c", b"2").unwrap();
    // The commit of another transaction makes the log durable to its end.
    e.insert(b"d", b"1", 0).unwrap();
    files.apply(&mut e);

    let mut again = files.open().unwrap();
    for k in [b"a", b"b", b"d"] {
        assert_eq!(again.get(k).unwrap(), Some(b"1".to_vec()));
    }
    assert_eq!(again.get(b"c").unwrap(), None);
    // Whoever comes later can change what the lost transaction had touched.
    again.update(b"a", b"3", 0).unwrap();
    again.delete(b"b", 0).unwrap();
    again.insert(b"c", b"3", 0).unwrap();
    files.apply(&mut again);

    let mut third = files.open().unwrap();
    assert_eq!(third.get(b"a").unwrap(), Some(b"3".to_vec()));
    assert_eq!(third.get(b"b").unwrap(), None);
    assert_eq!(third.get(b"c").unwrap(), Some(b"3".to_vec()));
    assert_eq!(third.get(b"d").unwrap(), Some(b"1".to_vec()));
}

#[test]
fn a_clean_file_needs_no_redo() {
    let mut e = TestEngine::create();
    e.insert(b"a", b"1", 0).unwrap();
    e.insert(b"b", b"1", 0).unwrap();
    e.flush_all_pages();
    let next = e.index.store.wal().next_lsn;
    assert_eq!(e.checkpoint().unwrap(), next);
}

/// Opens what is there when a crash comes before one of the file operations, or in
/// the middle of one that appends to the log, and has it looked at.
fn at_each_crash(files: &Files, actions: Vec<IoAction>, look: impl Fn(&mut TestEngine)) {
    let mut files = files.clone();
    for action in actions {
        look(&mut files.clone().open().unwrap());
        if let IoAction::AppendLog(bytes) = &action {
            for i in 1..24 {
                let mut torn = files.clone();
                torn.log.extend_from_slice(&bytes[..bytes.len() * i / 24]);
                look(&mut torn.open().unwrap());
            }
        }
        files.perform(action);
    }
}

#[test]
fn a_crash_inside_a_write_leaves_no_trace() {
    let mut files = Files::default();
    let mut e = TestEngine::create();
    for i in 0u32..24 {
        e.insert(&key(i), &[1; 300], 0).unwrap();
    }
    files.apply(&mut e);

    // Splits, overflow chains and stamps of a transaction that does not end.
    let mut lost = e.begin(0);
    for i in 0u32..8 {
        lost.update(&mut e, &key(3 * i), &[2; 400]).unwrap();
        lost.delete(&mut e, &key(3 * i + 1)).unwrap();
        lost.insert(&mut e, &key(100 + i), &[2; 2000]).unwrap();
    }
    e.flush_all_pages();

    at_each_crash(&files, e.take_actions(), |e| {
        for i in 0u32..24 {
            assert_eq!(e.get(&key(i)).unwrap(), Some(vec![1; 300]));
        }
        for i in 0u32..8 {
            assert_eq!(e.get(&key(100 + i)).unwrap(), None);
        }
        e.update(&key(0), b"3", 0).unwrap();
        e.insert(&key(100), b"3", 0).unwrap();
        assert_eq!(e.get(&key(0)).unwrap(), Some(b"3".to_vec()));
        assert_eq!(e.get(&key(100)).unwrap(), Some(b"3".to_vec()));
    });
}

#[test]
fn a_crash_inside_a_sweep_loses_nothing() {
    let mut files = Files::default();
    let mut e = TestEngine::create();
    for i in 0u32..16 {
        e.insert(&key(i), &[1; 2000], 0).unwrap();
    }
    for i in 0u32..8 {
        e.update(&key(2 * i), &[2; 300], 0).unwrap();
        e.delete(&key(2 * i + 1), 0).unwrap();
    }
    files.apply(&mut e);
    assert_eq!(e.vacuum().unwrap(), 16);
    e.flush_all_pages();

    at_each_crash(&files, e.take_actions(), |e| {
        for i in 0u32..8 {
            assert_eq!(e.get(&key(2 * i)).unwrap(), Some(vec![2; 300]));
            assert_eq!(e.get(&key(2 * i + 1)).unwrap(), None);
        }
        e.insert(&key(1), b"3", 0).unwrap();
        assert_eq!(e.get(&key(1)).unwrap(), Some(b"3".to_vec()));
    });
}

#[test]
fn the_log_goes_before_the_pages() {
    let mut e = TestEngine::create();
    for i in 0u32..40 {
        e.insert(&key(i), &[1; 300], 0).unwrap();
    }
    let mut open = e.begin(0);
    for i in 0u32..40 {
        open.update(&mut e, &key(i), &[2; 300]).unwrap();
    }
    e.flush_all_pages();
    let mut log: Vec<u8> = Vec::new();
    let mut written = 0;
    for action in e.take_actions() {
        match action {
            IoAction::AppendLog(bytes) => log.extend_from_slice(&bytes),
            IoAction::WritePage(_, bytes) => {
                let lsn = page_lsn(&bytes);
                if lsn > 0 {
                    let records = read_log(log.clone()).unwrap();
                    assert!(records.iter().any(|r| r.lsn == lsn));
                    written += 1;
                }
            }
            IoAction::SyncLog | IoAction::SyncData => {}
        }
    }
    assert!(written > 0);
}

#[test]
fn a_file_without_superblock_is_refused() {
    let mut files = Files { pages: vec![vec![0; PAGE_SIZE]; 2], log: Vec::new() };
    assert!(matches!(
        files.open(),
        Err(EngineError::Index(IndexError::CorruptMetadata))
    ));
    let mut files = Files::default();
    assert!(matches!(
        files.open(),
        Err(EngineError::Index(IndexError::BufferPool(BufferPoolError::Disk(_))))
    ));
}

#[test]
fn own_writes_leave_other_keys() {
    let mut e = TestEngine::create();
    e.insert(b"a", b"1", 0).unwrap();
    e.insert(b"b", b"2", 0).unwrap();
    let mut t = e.begin(0);
    t.update(&mut e, b"a", b"3").unwrap();
    t.insert(&mut e, b"c", b"4").unwrap();
    assert_eq!(t.get(&mut e, b"b").unwrap().as_deref(), Some(&b"2"[..]));
    t.delete(&mut e, b"a").unwrap();
    assert_eq!(t.get(&mut e, b"b").unwrap().as_deref(), Some(&b"2"[..]));
    assert_eq!(t.get(&mut e, b"c").unwrap().as_deref(), Some(&b"4"[..]));
}

#[test]
fn recovery_looks_at_the_pages_that_the_log_names() {
    let mut files = Files::default();
    let mut e = TestEngine::create();
    e.insert(b"k", b"v", 0).unwrap();
    files.apply(&mut e);
    let mut stray = vec![0u8; PAGE_SIZE];
    stray[0] = 1; // a leaf without its checksum
    files.pages.push(stray);

    let (wal, _) = Wal::new(files.log.clone()).unwrap();
    let records = read_log(files.log.clone()).unwrap();
    let pool = BufferPoolManager::new(DiskManager::open(files.pages.clone()), wal);
    let mut r = RecoveryManager::new(pool, records, TransactionManager::new());
    assert_eq!(r.recover(), Ok(()));

    // Whoever opens the database wants to read every page.
    assert!(matches!(
        files.open(),
        Err(EngineError::Index(IndexError::BufferPool(BufferPoolError::PageCorruption { .. })))
    ));
    files.pages.pop();
    files.pages[1][100] ^= 1;
    let (wal, _) = Wal::new(files.log.clone()).unwrap();
    let records = read_log(files.log.clone()).unwrap();
    let pool = BufferPoolManager::new(DiskManager::open(files.pages.clone()), wal);
    let mut r = RecoveryManager::new(pool, records, TransactionManager::new());
    assert!(matches!(
        r.recover(),
        Err(IndexError::BufferPool(BufferPoolError::PageCorruption { page_id: 1, .. }))
    ));
}

#[test]
fn autovacuum_fires_without_manual_trigger() {
    let mut engine = TestEngine::create();
    let mut worker = Sweeper::new();

    // Two batched transactions, not 2×N autocommits: dead versions are
    // counted at op time, so the deletes alone cross the threshold.
    let n = AUTOVACUUM_DEAD_THRESHOLD as usize + 1;
    let keys: Vec<Vec<u8>> = (0..n).map(|i| format!("k{i:05}").into_bytes()).collect();
    let mut txn = engine.begin(0);
    for key in &keys {
        txn.insert(&mut engine, key.as_slice(), b"v").unwrap();
    }
    txn.commit(&mut engine).unwrap();
    let mut txn = engine.begin(0);
    for key in &keys {
        txn.delete(&mut engine, key.as_slice()).unwrap();
    }
    txn.commit(&mut engine).unwrap();

    // Both sweep signals: the counter back below the threshold AND a published
    // horizon, which only a completed full pass produces.
    let mut ticks = 0;
    while engine.tm.dead_versions() >= AUTOVACUUM_DEAD_THRESHOLD || engine.tm.vacuum_horizon() == 0
    {
        ticks += 1;
        assert!(ticks < 100, "autovacuum never swept");
        assert!(worker.step(&mut engine, next_wake(Signal::Timeout)).1);
    }
    assert!(!worker.step(&mut engine, next_wake(Signal::Shutdown)).1);
}

#[test]
fn a_sweep_goes_on_batch_by_batch() {
    let mut e = TestEngine::create();
    let n: u32 = 12_000;
    let mut t = e.begin(0);
    for i in 0..n {
        t.insert(&mut e, &key(i), &[7u8; 20]).unwrap();
    }
    t.commit(&mut e).unwrap();
    let mut t = e.begin(0);
    for i in 0..n {
        if i % 2 == 0 {
            t.delete(&mut e, &key(i)).unwrap();
        }
    }
    t.commit(&mut e).unwrap();

    let mut sweeper = Sweeper::new();
    let (first, _) = sweeper.step(&mut e, Wake::Tick);
    assert!(matches!(first, SweepReport::Batch(touched) if touched == VACUUM_BATCH_MAX_LEAVES));
    assert_eq!(e.tm.vacuum_horizon(), 0);
    assert_eq!(nap_ms(VACUUM_BATCH_MAX_LEAVES), 640);

    // Others work on while the sweeper rests.
    e.insert(&key(n), b"new", 0).unwrap();
    assert_eq!(e.get(&key(1)).unwrap(), Some(vec![7u8; 20]));
    let dead = loop {
        let (report, goes_on) = sweeper.step(&mut e, Wake::Tick);
        assert!(goes_on);
        match report {
            SweepReport::Batch(touched) => assert!(touched <= VACUUM_BATCH_MAX_LEAVES),
            SweepReport::Complete(dead) => break dead,
            other => panic!("{other:?}"),
        }
    };
    assert_eq!(dead, n as u64 / 2);
    assert!(e.tm.vacuum_horizon() > 0);
    assert_eq!(e.vacuum().unwrap(), 0);
    assert_eq!(e.get(&key(0)).unwrap(), None);
    assert_eq!(e.get(&key(1)).unwrap(), Some(vec![7u8; 20]));
    assert_eq!(e.get(&key(n)).unwrap(), Some(b"new".to_vec()));
}

#[test]
fn a_sweep_stops_in_the_middle() {
    let mut e = TestEngine::create();
    let n: u32 = 12_000;
    let mut t = e.begin(0);
    for i in 0..n {
        t.insert(&mut e, &key(i), &[7u8; 20]).unwrap();
    }
    t.commit(&mut e).unwrap();
    let mut t = e.begin(0);
    for i in 0..n {
        t.delete(&mut e, &key(i)).unwrap();
    }
    t.commit(&mut e).unwrap();
    let mut sweeper = Sweeper::new();
    assert!(matches!(sweeper.step(&mut e, Wake::Tick), (SweepReport::Batch(_), true)));
    assert!(matches!(sweeper.step(&mut e, Wake::Shutdown), (SweepReport::Idle, false)));
    assert_eq!(e.tm.vacuum_horizon(), 0);
    let left = e.vacuum().unwrap();
    assert!(0 < left && left < n as usize);
}

#[test]
fn a_batch_passes_all_versions_of_a_key() {
    // Versions of one key fill more leaves than a batch has.
    let mut e = TestEngine::create();
    let pin = e.begin(0);
    e.insert(b"k", &[0u8; 900], 0).unwrap();
    for i in 0..600u32 {
        e.update(b"k", &[i as u8; 900], 0).unwrap();
    }
    e.insert(b"l", b"last", 0).unwrap();
    pin.abort(&mut e);
    let first = e.vacuum_batch(&KeyBound::Unbounded).unwrap();
    assert_eq!(first.touched, VACUUM_BATCH_MAX_LEAVES);
    let from = KeyBound::Included(first.next.unwrap());
    let second = e.vacuum_batch(&from).unwrap();
    assert!(second.touched > VACUUM_BATCH_MAX_LEAVES);
    assert_eq!(second.next, None);
    assert_eq!(first.gone + second.gone, 600);
    assert_eq!(e.get(b"k").unwrap(), Some(vec![599u32 as u8; 900]));
    assert_eq!(e.get(b"l").unwrap(), Some(b"last".to_vec()));
}

#[test]
fn recovery_fails_as_the_first_bad_record_does() {
    // A record that gives back overflow pages, with seven bytes of ids, and then one
    // that changes a page without its checksum.
    let mut files = Files::default();
    let mut e = TestEngine::create();
    e.insert(b"k", b"v", 0).unwrap();
    files.apply(&mut e);
    files.pages[1][100] ^= 1;
    let bad_free = |lsn: u64| WalRecord {
        lsn,
        rec_len: 0,
        txn_id: 0,
        entry_type: WalRecordType::OverflowFree,
        blocks: Vec::new(),
        main_data: Some(vec![0u8; 7]),
    };
    let recover = |records: Vec<WalRecord>, pages: &[Vec<u8>]| {
        let (wal, _) = Wal::new(files.log.clone()).unwrap();
        let pool = BufferPoolManager::new(DiskManager::open(pages.to_vec()), wal);
        RecoveryManager::new(pool, records, TransactionManager::new()).recover()
    };
    let logged = || read_log(files.log.clone()).unwrap();

    let mut records = vec![bad_free(0)];
    records.extend(logged());
    assert_eq!(recover(records, &files.pages), Err(IndexError::Wal(WalError::CorruptedLog)));
    let mut records = logged();
    records.push(bad_free(9));
    assert!(matches!(
        recover(records, &files.pages),
        Err(IndexError::BufferPool(BufferPoolError::PageCorruption { page_id: 1, .. }))
    ));
}

#[test]
fn a_second_recovery_gives_the_same() {
    let mut files = Files::default();
    let mut e = TestEngine::create();
    e.insert(b"a", b"1", 0).unwrap();
    let mut t = e.begin(0);
    t.insert(&mut e, b"b", b"2").unwrap();
    t.abort(&mut e);
    let mut open = e.begin(0);
    open.insert(&mut e, b"c", b"3").unwrap();
    e.insert(b"d", b"4", 0).unwrap();
    files.apply(&mut e);

    let run = |pages: Vec<Vec<u8>>| {
        let (wal, _) = Wal::new(files.log.clone()).unwrap();
        let records = read_log(files.log.clone()).unwrap();
        let pool = BufferPoolManager::new(DiskManager::open(pages), wal);
        let mut r = RecoveryManager::new(pool, records, TransactionManager::new());
        assert_eq!(r.recover(), Ok(()));
        r
    };
    let mut first = run(files.pages.clone());
    let mut after = Files { pages: files.pages.clone(), log: Vec::new() };
    for action in first.pool.disk.out.take() {
        if let IoAction::WritePage(..) = action {
            after.perform(action);
        }
    }
    let second = run(after.pages);
    for id in 1..6u64 {
        assert_eq!(first.tm.is_committed(id), second.tm.is_committed(id));
        assert_eq!(first.tm.is_aborted(id), second.tm.is_aborted(id));
    }
    assert!(first.tm.is_committed(1) && first.tm.is_aborted(2) && first.tm.is_aborted(3));
    assert_eq!(first.tm.next_txn_id, second.tm.next_txn_id);
    assert_eq!(first.pool.next_page_id, second.pool.next_page_id);
    assert!(first.tm.next_txn_id > 4);
}

#[test]
fn a_new_database_has_room() {
    let mut e = TestEngine::create();
    assert!(e.has_room());
    assert_eq!(e.index.store.next_page_id(), 2);
    assert_eq!((e.index.height, e.index.incomplete), (1, 0));
    for i in 0..2000u32 {
        e.insert(&key(i), &[1u8; 100], 0).unwrap();
    }
    assert!(e.index.height > 1);
    assert_eq!(e.index.incomplete, 0);
    assert!(e.has_room());
}
