use fluxdb::error::LockManagerError;
use fluxdb::lock_manager::{LockManager, LockType};

#[test]
fn shared_locks_are_shared_and_exclusive_ones_are_not() {
    let mut m = LockManager::new();
    assert!(m.acquire_lock(1, 7, LockType::SharedLock));
    assert!(m.acquire_lock(2, 7, LockType::SharedLock));
    assert!(!m.acquire_lock(3, 7, LockType::ExclusiveLock));
    // Nobody overtakes the exclusive request.
    assert!(!m.acquire_lock(4, 7, LockType::SharedLock));
    assert!(m.acquire_lock(4, 8, LockType::ExclusiveLock));

    m.release_lock(1, 7).unwrap();
    assert!(!m.is_granted(3, 7));
    m.release_lock(2, 7).unwrap();
    assert!(m.is_granted(3, 7));
    assert!(!m.is_granted(4, 7));
    m.release_lock(3, 7).unwrap();
    assert!(m.is_granted(4, 7));
}

#[test]
fn releasing_what_was_never_asked_for_fails() {
    let mut m = LockManager::new();
    assert_eq!(m.release_lock(1, 7), Err(LockManagerError::RecordNotFound));
    assert_eq!(m.upgrade_lock(1, 7), Err(LockManagerError::RecordNotFound));
}

#[test]
fn an_upgrade_waits_for_the_other_readers() {
    let mut m = LockManager::new();
    m.acquire_lock(1, 7, LockType::SharedLock);
    m.acquire_lock(2, 7, LockType::SharedLock);
    assert_eq!(m.upgrade_lock(1, 7), Ok(false));
    assert_eq!(m.upgrade_lock(2, 7), Err(LockManagerError::UpgradeConflict));
    assert!(!m.finish_upgrade(1, 7));
    m.release_lock(2, 7).unwrap();
    assert!(m.finish_upgrade(1, 7));
    assert_eq!(m.upgrade_lock(1, 7), Ok(true));
}

#[test]
fn a_request_that_waits_cannot_be_upgraded() {
    let mut m = LockManager::default();
    m.acquire_lock(1, 7, LockType::ExclusiveLock);
    m.acquire_lock(2, 7, LockType::SharedLock);
    assert_eq!(m.upgrade_lock(2, 7), Err(LockManagerError::InvalidLockState));
}
