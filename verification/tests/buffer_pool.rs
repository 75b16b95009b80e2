use fluxdb::constants::{MAX_FRAMES, PAGE_SIZE};
use fluxdb::disk::{DiskManager, IoAction};
use fluxdb::error::{BufferPoolError, DiskError};
use fluxdb::manager::BufferPoolManager;
use fluxdb::page::{stamp_checksum, verify_checksum, LEAF};
use fluxdb::wal::Wal;

fn make_bpm(disk: DiskManager) -> BufferPoolManager {
    BufferPoolManager::new(disk, Wal::new(Vec::new()).unwrap().0)
}

/// The data file of a host that has done what it was asked for.
fn data_file(bpm: &mut BufferPoolManager) -> Vec<Vec<u8>> {
    let mut pages: Vec<Vec<u8>> = Vec::new();
    for action in bpm.disk.out.take() {
        if let IoAction::WritePage(id, bytes) = action {
            while pages.len() <= id as usize {
                pages.push(vec![0; PAGE_SIZE]);
            }
            pages[id as usize] = bytes;
        }
    }
    pages
}

/// A new page with some bytes set.
fn new_page(bpm: &mut BufferPoolManager, bytes: &[(usize, u8)]) -> u64 {
    let mut guard = bpm.new_page().unwrap();
    let id = guard.page_id;
    let mut page = bpm.read_mut(&guard).clone();
    for (at, b) in bytes {
        page[*at] = *b;
    }
    bpm.write(&mut guard, page);
    bpm.release_mut(guard);
    id
}

fn set_byte(bpm: &mut BufferPoolManager, id: u64, at: usize, b: u8) {
    let mut guard = bpm.fetch_page_mut(id).unwrap();
    let mut page = bpm.read_mut(&guard).clone();
    page[at] = b;
    bpm.write(&mut guard, page);
    bpm.release_mut(guard);
}

fn byte(bpm: &mut BufferPoolManager, id: u64, at: usize) -> u8 {
    let guard = bpm.fetch_page(id).unwrap();
    let b = bpm.read(&guard)[at];
    bpm.release(guard);
    b
}

#[test]
fn test_buffer_pool_manager_basic() {
    let mut bpm = make_bpm(DiskManager::new());
    let page_id = new_page(&mut bpm, &[(0, 1), (1, 2)]);
    assert_eq!(byte(&mut bpm, page_id, 0), 1);
    assert_eq!(byte(&mut bpm, page_id, 1), 2);
    set_byte(&mut bpm, page_id, 0, 3);
    assert_eq!(byte(&mut bpm, page_id, 0), 3);
}

#[test]
fn test_buffer_pool_manager_eviction_persistence() {
    let mut bpm = make_bpm(DiskManager::new());
    let mut page_ids = Vec::new();
    for i in 0..MAX_FRAMES + 1 {
        page_ids.push(new_page(&mut bpm, &[(0, i as u8)]));
    }
    for i in 0..MAX_FRAMES + 1 {
        assert_eq!(byte(&mut bpm, page_ids[i], 0), i as u8);
    }
}

#[test]
fn test_buffer_pool_manager_full_lifecycle() {
    let mut bpm = make_bpm(DiskManager::new());
    let mut page_ids = Vec::new();
    for i in 0..10 {
        page_ids.push(new_page(&mut bpm, &[(0, i as u8)]));
    }
    for i in 0..10 {
        assert_eq!(byte(&mut bpm, page_ids[i], 0), i as u8);
    }
    for i in 0..10 {
        set_byte(&mut bpm, page_ids[i], 0, (i + 10) as u8);
    }
    for i in 0..10 {
        bpm.flush_page(page_ids[i]);
    }
    for i in 0..10 {
        assert_eq!(byte(&mut bpm, page_ids[i], 0), (i + 10) as u8);
    }
}

#[test]
fn test_checksum_survives_reopen() {
    let mut bpm = make_bpm(DiskManager::new());
    let pid = new_page(&mut bpm, &[(0, LEAF), (100, 42)]);
    assert!(bpm.flush_page(pid));

    let mut bpm = make_bpm(DiskManager::open(data_file(&mut bpm)));
    assert_eq!(byte(&mut bpm, pid, 0), LEAF);
    assert_eq!(byte(&mut bpm, pid, 100), 42);
}

#[test]
fn test_checksum_detects_corruption() {
    let mut bpm = make_bpm(DiskManager::new());
    let pid = new_page(&mut bpm, &[(0, LEAF), (100, 42)]);
    assert!(bpm.flush_page(pid));

    let mut file = data_file(&mut bpm);
    file[pid as usize][100] ^= 0xFF;

    let mut bpm = make_bpm(DiskManager::open(file));
    assert!(matches!(
        bpm.fetch_page(pid),
        Err(BufferPoolError::PageCorruption { .. })
    ));
    assert!(matches!(
        bpm.fetch_page_mut(pid),
        Err(BufferPoolError::PageCorruption { .. })
    ));
}

#[test]
fn test_buffer_pool_manager_pin_count() {
    let mut bpm = make_bpm(DiskManager::new());
    let mut pages = Vec::new();
    for _ in 0..MAX_FRAMES {
        pages.push(bpm.new_page().unwrap());
    }
    let res = bpm.new_page();
    assert!(matches!(res, Err(BufferPoolError::NoEvictableFrames)));
    for guard in pages {
        bpm.release_mut(guard);
    }
    assert!(bpm.new_page().is_ok());
}

#[test]
fn fetching_behind_the_end_of_the_file_fails() {
    let mut bpm = make_bpm(DiskManager::new());
    assert!(bpm.fetch_page(3).is_err());
    let d = DiskManager::new();
    assert_eq!(d.read_page(5), Err(DiskError::OutOfBounds(5)));
}

#[test]
fn a_page_in_use_cannot_be_deleted() {
    let mut bpm = make_bpm(DiskManager::new());
    let id = new_page(&mut bpm, &[(0, 1)]);
    let guard = bpm.fetch_page(id).unwrap();
    assert!(bpm.delete_page(id).is_err());
    bpm.release(guard);
    assert!(bpm.delete_page(id).is_ok());
    assert!(bpm.delete_page(id).is_ok());
}

#[test]
fn the_log_is_synced_before_a_page_is_written() {
    let mut bpm = make_bpm(DiskManager::new());
    let id = new_page(&mut bpm, &[(0, LEAF)]);
    bpm.flush_all_pages();
    bpm.disk.out.take();
    bpm.wal.log_commit(1);
    let lsn = bpm.wal.log_commit(2);
    let mut guard = bpm.fetch_page_mut(id).unwrap();
    let mut page = bpm.read_mut(&guard).clone();
    fluxdb::page::set_lsn(&mut page, lsn);
    bpm.write(&mut guard, page);
    bpm.mark_dirty_with_lsn(&mut guard, lsn);
    bpm.release_mut(guard);
    assert_eq!(bpm.min_rec_lsn(), Some(lsn));
    bpm.flush_all_pages();
    assert_eq!(bpm.min_rec_lsn(), None);
    assert_eq!(bpm.wal.flushed_lsn, Some(lsn));
    let kinds: Vec<u8> = bpm
        .disk
        .out
        .take()
        .iter()
        .map(|a| match a {
            IoAction::AppendLog(_) => 0,
            IoAction::SyncLog => 1,
            IoAction::WritePage(..) => 2,
            IoAction::SyncData => 3,
        })
        .collect();
    assert_eq!(kinds, vec![0, 1, 2, 3]);
}

#[test]
fn stamped_pages_verify_and_changed_ones_do_not() {
    let mut page = vec![0u8; PAGE_SIZE];
    page[0] = LEAF;
    page[77] = 9;
    stamp_checksum(&mut page);
    assert_eq!(verify_checksum(&page), Ok(()));
    page[78] = 1;
    assert!(verify_checksum(&page).is_err());
}

#[test]
fn ids_of_a_larger_file_are_not_given_out_again() {
    let mut bpm = make_bpm(DiskManager::new());
    bpm.advance_next_page_id(12);
    assert_eq!(bpm.next_page_id(), 12);
    let id = new_page(&mut bpm, &[]);
    assert_eq!(id, 12);
}
