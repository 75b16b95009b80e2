use fluxdb::transaction::Snapshot;
use fluxdb::transaction_manager::{TransactionManager, TransactionStatus};

#[test]
fn test_begin_transaction() {
    let mut tm = TransactionManager::new();
    let txn = tm.begin(0);

    assert_eq!(txn.snapshot.active.len(), 1);
    assert_eq!(txn.snapshot.active[0], txn.txn_id);
    assert!(tm.is_active(txn.txn_id));
    assert!(!tm.is_committed(txn.txn_id));
    assert!(!tm.is_aborted(txn.txn_id));
}

#[test]
fn read_snapshot_pins_horizon_until_end_read() {
    let mut tm = TransactionManager::new();

    let writer = tm.begin(0);
    let (snap, token) = tm.read_snapshot();

    tm.mark_committed(writer.txn_id);
    assert_eq!(
        tm.global_xmin(),
        snap.xmin,
        "reader token must keep global_xmin pinned at its snapshot xmin"
    );

    tm.end_read(token);
    assert_eq!(
        tm.global_xmin(),
        tm.next_txn_id,
        "after end_read the horizon is no longer pinned by the reader"
    );
}

#[test]
fn read_snapshot_takes_no_txn_id_or_clog_entry() {
    let mut tm = TransactionManager::new();
    let before = tm.next_txn_id;

    let (_snap, token) = tm.read_snapshot();
    assert_eq!(tm.next_txn_id, before, "read_snapshot must not consume a txn_id");
    assert!(tm.clog.len() == 0, "read_snapshot must not write a CLOG entry");
    tm.end_read(token);
}

#[test]
fn read_snapshot_xmin_uses_snapshot_xmin_not_txn_id() {
    let mut tm = TransactionManager::new();
    let txn1 = tm.begin(0);
    let txn2 = tm.begin(0);
    tm.mark_committed(txn1.txn_id);

    let (snap, token) = tm.read_snapshot();
    assert_eq!(
        snap.xmin, txn2.snapshot.xmin,
        "read_snapshot must use the snapshot xmin (from values), not the txn_id (from keys)"
    );
    tm.end_read(token);
}

#[test]
fn test_seed_clog_from_checkpoint() {
    let mut tm = TransactionManager::new();

    let pinned = vec![10, 15, 20];
    tm.seed_clog_from_checkpoint(&pinned);

    assert!(tm.is_aborted(10));
    assert!(tm.is_aborted(15));
    assert!(tm.is_aborted(20));
    assert!(!tm.is_committed(10));
}

#[test]
fn test_commit_transaction() {
    let mut tm = TransactionManager::new();
    let txn = tm.begin(0);

    tm.mark_committed(txn.txn_id);

    assert!(!tm.is_active(txn.txn_id));
    assert!(tm.is_committed(txn.txn_id));
    assert!(!tm.is_aborted(txn.txn_id));
}

#[test]
fn test_abort_transaction() {
    let mut tm = TransactionManager::new();
    let txn = tm.begin(0);

    tm.mark_aborted(txn.txn_id);

    assert!(!tm.is_active(txn.txn_id));
    assert!(!tm.is_committed(txn.txn_id));
    assert!(tm.is_aborted(txn.txn_id));
}

#[test]
fn test_snapshot_empty_active() {
    let tm = TransactionManager::new();
    let snap = tm.get_snapshot();

    // When empty, xmin should equal xmax
    assert_eq!(snap.xmin, snap.xmax);
    assert!(snap.active.is_empty());
}

#[test]
fn test_snapshot_with_multiple_active() {
    let mut tm = TransactionManager::new();
    let txn1 = tm.begin(0);
    let txn2 = tm.begin(0);

    let snap = tm.get_snapshot();

    assert_eq!(snap.xmin, txn1.txn_id); // txn1 is the oldest active
    assert!(snap.xmax > txn2.txn_id);
    assert!(snap.active.contains(&txn1.txn_id));
    assert!(snap.active.contains(&txn2.txn_id));
    assert_eq!(snap.active.len(), 2);
}

#[test]
fn test_snapshot_with_commits_in_middle() {
    let mut tm = TransactionManager::new();
    let txn1 = tm.begin(0);
    let txn2 = tm.begin(0);
    let txn3 = tm.begin(0);

    // Commit txn2 in the middle
    tm.mark_committed(txn2.txn_id);

    let snap = tm.get_snapshot();

    assert_eq!(snap.xmin, txn1.txn_id); // txn1 is still oldest
    assert!(!snap.active.contains(&txn2.txn_id)); // txn2 committed
    assert!(snap.active.contains(&txn1.txn_id));
    assert!(snap.active.contains(&txn3.txn_id));
    assert_eq!(snap.active.len(), 2);
}

#[test]
fn published_txn_state_tracks_begin_commit_abort() {
    let mut tm = TransactionManager::new();
    assert_eq!(tm.txn_state.xmin, 1);
    assert_eq!(tm.txn_state.xmax, 1);
    assert!(tm.txn_state.active.is_empty());
    assert!(tm.txn_state.aborted.is_empty());

    let txn1 = tm.begin(0);
    let txn1_id = txn1.txn_id;
    let txn2 = tm.begin(0);
    let txn3 = tm.begin(0);
    assert_eq!(&tm.txn_state.active[..], &[txn1.txn_id, txn2.txn_id, txn3.txn_id]);
    assert_eq!(tm.txn_state.xmin, txn1.txn_id);
    assert_eq!(tm.txn_state.xmax, txn3.txn_id + 1);
    assert!(tm.txn_state.aborted.is_empty());

    tm.mark_committed(txn2.txn_id);
    assert_eq!(&tm.txn_state.active[..], &[txn1_id, txn3.txn_id]);
    assert_eq!(tm.txn_state.xmin, txn1_id);
    assert_eq!(tm.txn_state.xmax, txn3.txn_id + 1);

    tm.mark_aborted(txn3.txn_id);
    assert_eq!(&tm.txn_state.active[..], &[txn1_id]);
    assert_eq!(tm.txn_state.xmin, txn1_id);
    assert_eq!(tm.txn_state.xmax, txn3.txn_id + 1);
    assert_eq!(
        &tm.txn_state.aborted[..],
        &[txn3.txn_id],
        "aborts move into TxnState in Phase 3"
    );
}

#[test]
fn stale_published_snapshot_hides_later_commit() {
    let mut tm = TransactionManager::new();
    let writer = tm.begin(0);
    let stale = Snapshot::from_state(&tm.txn_state);

    tm.mark_committed(writer.txn_id);

    assert!(
        !stale.is_committed(writer.txn_id, &tm),
        "a transaction active in the loaded snapshot must stay invisible to it after commit"
    );

    let fresh = tm.get_snapshot();
    assert!(
        fresh.is_committed(writer.txn_id, &tm),
        "a fresh snapshot after commit should see the committed transaction"
    );
}

#[test]
fn wait_until_settled_returns_immediately_if_already_committed() {
    let mut tm = TransactionManager::new();
    let txn = tm.begin(0);
    tm.mark_committed(txn.txn_id);
    // There is nothing to sleep for.
    assert!(!tm.wait_until_settled(txn.txn_id));
}

#[test]
fn wait_until_settled_returns_immediately_if_already_aborted() {
    let mut tm = TransactionManager::new();
    let txn = tm.begin(0);
    tm.mark_aborted(txn.txn_id);
    assert!(!tm.wait_until_settled(txn.txn_id));
}

#[test]
fn a_waiter_is_woken_by_a_commit() {
    let mut tm = TransactionManager::new();
    let blocker = tm.begin(0);
    assert!(tm.wait_until_settled(blocker.txn_id));
    assert!(tm.mark_committed(blocker.txn_id));
    assert!(!tm.wait_until_settled(blocker.txn_id));
}

#[test]
fn a_waiter_is_woken_by_an_abort() {
    let mut tm = TransactionManager::new();
    let blocker = tm.begin(0);
    assert!(tm.wait_until_settled(blocker.txn_id));
    assert!(tm.mark_aborted(blocker.txn_id));
    assert!(!tm.wait_until_settled(blocker.txn_id));
}

#[test]
fn all_waiters_are_woken_at_once() {
    let mut tm = TransactionManager::new();
    let blocker = tm.begin(0);
    for _ in 0..8 {
        assert!(tm.wait_until_settled(blocker.txn_id));
    }
    assert!(tm.mark_committed(blocker.txn_id));
    for _ in 0..8 {
        assert!(!tm.wait_until_settled(blocker.txn_id));
    }
}

#[test]
fn nobody_waits_for_a_settled_transaction() {
    let mut tm = TransactionManager::new();
    let blocker = tm.begin(0);
    assert!(tm.wait_until_settled(blocker.txn_id));
    assert!(tm.waiters.contains(blocker.txn_id));
    tm.mark_committed(blocker.txn_id);
    assert!(!tm.waiters.contains(blocker.txn_id));
}

#[test]
fn test_truncate_clog_retains_aborted() {
    let mut tm = TransactionManager::new();
    let txn_commit = tm.begin(0);
    let txn_abort = tm.begin(0);
    let txn_active = tm.begin(0);

    tm.mark_committed(txn_commit.txn_id);
    tm.mark_aborted(txn_abort.txn_id);

    // Truncate past all of them
    let horizon = txn_active.txn_id + 1;
    tm.truncate_clog(horizon);

    // Committed should be dropped
    assert!(!tm.clog.contains(txn_commit.txn_id));
    // Aborted should be retained to prevent visible-aborted-data bug
    assert_eq!(tm.clog.get(txn_abort.txn_id), Some(&TransactionStatus::Aborted));
    // Active is retained automatically because it's active
    assert_eq!(tm.clog.get(txn_active.txn_id), Some(&TransactionStatus::Active));
}

#[test]
fn test_truncate_clog_retains_aborted_above_vacuum_horizon() {
    let mut tm = TransactionManager::new();

    let txc1 = tm.begin(0);
    let tx_abort = tm.begin(0);

    tm.mark_committed(txc1.txn_id);
    tm.mark_aborted(tx_abort.txn_id);

    let _txc2 = tm.begin(0);

    tm.publish_vacuum_horizon(tx_abort.txn_id - 1);

    let committed_horizon = tm.global_xmin();
    assert!(tx_abort.txn_id < committed_horizon);
    assert!(tm.vacuum_horizon() < tx_abort.txn_id);

    tm.truncate_clog(committed_horizon);

    assert_eq!(
        tm.clog.get(tx_abort.txn_id),
        Some(&TransactionStatus::Aborted),
        "aborted entry below global_xmin but above vacuum_horizon must survive",
    );
    assert_eq!(tm.settled_status(tx_abort.txn_id), TransactionStatus::Aborted);
}

#[test]
fn test_truncate_clog_drops_aborted_below_vacuum_horizon() {
    let mut tm = TransactionManager::new();

    let tx_abort = tm.begin(0);
    tm.mark_aborted(tx_abort.txn_id);

    let txc1 = tm.begin(0);
    tm.mark_committed(txc1.txn_id);
    let _txc2 = tm.begin(0);

    tm.publish_vacuum_horizon(txc1.txn_id);
    assert!(!tm.is_aborted(tx_abort.txn_id));
    let committed_horizon = tm.global_xmin();
    tm.truncate_clog(committed_horizon);

    assert_eq!(
        tm.clog.get(tx_abort.txn_id),
        None,
        "aborted entry below vacuum_horizon must not survive",
    );
}

#[test]
fn oldest_transaction_is_the_one_that_began_first() {
    let mut tm = TransactionManager::new();
    assert_eq!(tm.oldest_active_txn_age(9), None);
    let a = tm.begin(3);
    let _b = tm.begin(5);
    assert_eq!(tm.oldest_active_txn_age(9), Some(6));
    tm.mark_committed(a.txn_id);
    assert_eq!(tm.oldest_active_txn_age(9), Some(4));
}

#[test]
fn readers_beyond_the_slots_still_pin_the_horizon() {
    let mut tm = TransactionManager::new();
    let writer = tm.begin(0);
    let mut tokens = Vec::new();
    for _ in 0..200 {
        let (_s, token) = tm.read_snapshot();
        tokens.push(token);
    }
    assert!(tokens.iter().any(|t| t >> 63 == 1));
    tm.mark_committed(writer.txn_id);
    while let Some(token) = tokens.pop() {
        assert_eq!(tm.global_xmin(), writer.txn_id);
        tm.end_read(token);
    }
    assert_eq!(tm.global_xmin(), tm.next_txn_id);
}

#[test]
fn dead_versions_are_counted_and_taken() {
    let mut tm = TransactionManager::new();
    tm.note_dead_version();
    tm.note_dead_version();
    assert_eq!(tm.dead_versions(), 2);
    assert_eq!(tm.take_dead_versions(), 2);
    assert_eq!(tm.dead_versions(), 0);
    tm.restore_dead_versions(7);
    assert_eq!(tm.dead_versions(), 7);
}

#[test]
fn the_horizon_is_the_oldest_snapshot_in_flight() {
    let mut tm = TransactionManager::new();
    let t1 = tm.begin(0);
    let t2 = tm.begin(0);
    tm.mark_committed(t1.txn_id);
    let t3 = tm.begin(0);
    assert_eq!(t3.snapshot.xmin, 1);
    tm.mark_committed(t2.txn_id);
    assert_eq!(tm.global_xmin(), 1);
    tm.mark_committed(t3.txn_id);
    assert_eq!(tm.global_xmin(), 4);
}

#[test]
fn the_horizon_never_moves_back() {
    let mut tm = TransactionManager::new();
    let mut last = tm.global_xmin();
    let mut open = Vec::new();
    let mut readers = Vec::new();
    for i in 0u64..60 {
        match i % 5 {
            0 | 1 => open.push(tm.begin(i).txn_id),
            2 => readers.push(tm.read_snapshot().1),
            3 => {
                tm.mark_committed(open.remove(0));
            }
            _ => {
                tm.end_read(readers.remove(0));
                if open.len() > 1 {
                    tm.mark_aborted(open.remove(0));
                }
            }
        }
        let x = tm.global_xmin();
        assert!(x >= last);
        assert!(open.iter().all(|id| x <= *id));
        last = x;
    }
    for id in open {
        tm.mark_committed(id);
    }
    assert_eq!(tm.global_xmin(), tm.next_txn_id);
}
