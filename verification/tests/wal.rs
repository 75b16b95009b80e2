use fluxdb::constants::PAGE_SIZE;
use fluxdb::disk::{IoAction, Outbox};
use fluxdb::error::WalError;
use fluxdb::wal::{Block, Wal, WalIterator, WalRecordType};

/// The bytes that a host which carries out these operations has in its log file.
fn log_file(out: &mut Outbox) -> Vec<u8> {
    let mut file = Vec::new();
    for action in out.take() {
        if let IoAction::AppendLog(bytes) = action {
            file.extend_from_slice(&bytes);
        }
    }
    file
}

fn fresh() -> Wal {
    Wal::new(Vec::new()).unwrap().0
}

fn data_block(page_id: u64) -> Block {
    Block { page_id, blk_flags: 2, fpi: None, data: Some(vec![1, 2, 3, 4]) }
}

fn bare_block(page_id: u64) -> Block {
    Block { page_id, blk_flags: 0, fpi: None, data: None }
}

/// The log file with two records that several tests start from.
fn two_records() -> Vec<u8> {
    let mut wal = fresh();
    let mut out = Outbox::new();
    wal.append(WalRecordType::Insert, 42, &vec![data_block(100)], None);
    wal.append(WalRecordType::Commit, 43, &vec![bare_block(101)], None);
    wal.flush_up_to(1, &mut out);
    log_file(&mut out)
}

#[test]
fn test_wal_roundtrip() {
    let mut wal = fresh();
    let mut out = Outbox::new();

    wal.append(WalRecordType::Insert, 42, &vec![data_block(100)], None);

    let block2 = Block {
        page_id: 101,
        blk_flags: 1,
        fpi: Some(vec![0u8; PAGE_SIZE]),
        data: None,
    };
    wal.append(
        WalRecordType::Commit,
        43,
        &vec![block2],
        Some(vec![8, 7, 6, 5, 4, 3, 2, 1]),
    );

    wal.flush_up_to(2, &mut out);

    let mut iter = WalIterator::new(log_file(&mut out));

    let entry1 = iter.next_record().unwrap().unwrap();
    assert_eq!(entry1.lsn, 0);
    assert_eq!(entry1.entry_type, WalRecordType::Insert);
    assert_eq!(entry1.txn_id, 42);
    assert_eq!(entry1.blocks.len(), 1);
    assert_eq!(entry1.blocks[0].page_id, 100);
    assert_eq!(entry1.blocks[0].data.as_deref().unwrap(), &[1, 2, 3, 4]);

    let entry2 = iter.next_record().unwrap().unwrap();
    assert_eq!(entry2.lsn, 1);
    assert_eq!(entry2.entry_type, WalRecordType::Commit);
    assert_eq!(entry2.txn_id, 43);
    assert_eq!(entry2.blocks.len(), 1);
    assert_eq!(entry2.blocks[0].page_id, 101);
    assert!(entry2.blocks[0].fpi.is_some());
    assert_eq!(entry2.main_data.as_deref().unwrap(), &[8, 7, 6, 5, 4, 3, 2, 1]);

    assert!(iter.next_record().is_none());
}

#[test]
fn test_wal_recovery_clean() {
    let (wal, _) = Wal::new(two_records()).unwrap();
    assert_eq!(wal.next_lsn, 2);
}

#[test]
fn test_flush_tracks_requested_lsn_and_noops_when_durable() {
    let mut wal = fresh();
    let mut out = Outbox::new();
    let first = wal.append(WalRecordType::Insert, 42, &vec![], None);
    let second = wal.append(WalRecordType::Commit, 42, &vec![], None);

    assert_eq!(first, 0);
    assert_eq!(second, 1);
    assert_eq!(wal.flushed_lsn, None);

    wal.flush_up_to(first, &mut out);
    assert_eq!(wal.flushed_lsn, Some(first));
    assert_eq!(out.take().len(), 2);

    wal.flush_up_to(first, &mut out);
    assert_eq!(wal.flushed_lsn, Some(first));
    assert_eq!(out.take().len(), 0);

    wal.flush_up_to(second, &mut out);
    assert_eq!(wal.flushed_lsn, Some(second));
}

#[test]
fn test_wal_recovery_torn_tail() {
    let mut file = two_records();
    let file_len = file.len();
    file[file_len - 1] = 0xFF;

    let (wal, new_file_len) = Wal::new(file).unwrap();
    assert_eq!(wal.next_lsn, 1);
    assert!(new_file_len < file_len);
}

#[test]
fn test_wal_mid_log_corruption() {
    let mut file = two_records();
    file[40] = 0xFF;

    match Wal::new(file) {
        Err(WalError::ChecksumMismatch { lsn, .. }) => assert_eq!(lsn, 0),
        Err(e) => panic!("Expected ChecksumMismatch error, got error: {:?}", e),
        Ok(_) => panic!("Expected ChecksumMismatch error, got Ok(_)"),
    }
}

#[test]
fn test_wal_torn_lsn() {
    let mut wal = fresh();
    let mut out = Outbox::new();
    wal.append(WalRecordType::Insert, 42, &vec![data_block(100)], None);
    wal.flush_up_to(0, &mut out);

    let mut file = log_file(&mut out);
    let clean_len = file.len();
    file.extend_from_slice(&[0xFF, 0xFF, 0xFF, 0xFF]);

    let (_, new_file_len) = Wal::new(file).unwrap();
    assert_eq!(
        new_file_len, clean_len,
        "Garbage bytes were not truncated! Expected len {}, got {}",
        clean_len, new_file_len
    );
}

#[test]
fn flipped_byte_in_last_record_is_reported_by_the_iterator() {
    let mut file = two_records();
    let n = file.len();
    file[n - 6] ^= 1;
    let mut iter = WalIterator::new(file);
    assert!(iter.next_record().unwrap().is_ok());
    assert!(iter.next_record().unwrap().is_err());
}

#[test]
fn insert_record_carries_key_and_value() {
    let mut wal = fresh();
    let mut out = Outbox::new();
    let lsn = wal.log_insert(7, 3, 2, b"key", b"value", 7);
    assert_eq!(lsn, 0);
    wal.flush_up_to(lsn, &mut out);
    let mut iter = WalIterator::new(log_file(&mut out));
    let r = iter.next_record().unwrap().unwrap();
    assert_eq!(r.entry_type, WalRecordType::Insert);
    assert_eq!(r.txn_id, 7);
    assert_eq!(r.blocks[0].page_id, 3);
    let mut expected = vec![2, 0, 3, 0, 5, 0, 0];
    expected.extend_from_slice(&7u64.to_le_bytes());
    expected.extend_from_slice(b"keyvalue");
    assert_eq!(r.blocks[0].data.as_deref(), Some(&expected[..]));
}

#[test]
fn record_types_are_bytes() {
    let types = [
        WalRecordType::Insert,
        WalRecordType::SetXMax,
        WalRecordType::Commit,
        WalRecordType::Abort,
        WalRecordType::LeafSplit,
        WalRecordType::InternalSPlit,
        WalRecordType::InsertDownLink,
        WalRecordType::NewRoot,
        WalRecordType::PageCompact,
        WalRecordType::MarkHalfDead,
        WalRecordType::UnlinkPage,
        WalRecordType::Checkpoint,
        WalRecordType::OverflowFree,
    ];
    for (b, t) in types.iter().enumerate() {
        assert_eq!(t.as_byte(), b as u8);
        assert_eq!(WalRecordType::try_from(b as u8), Ok(*t));
    }
    for b in types.len() as u8..=u8::MAX {
        assert_eq!(WalRecordType::try_from(b), Err(WalError::InvalidEntryType(b)));
    }
}

#[test]
fn an_unknown_record_type_is_reported_by_the_iterator() {
    for b in [13u8, 14, 0xEE] {
        let mut file = two_records();
        file[12] = b;
        let mut it = WalIterator::new(file);
        assert!(matches!(
            it.next_record(),
            Some(Err(WalError::InvalidEntryType(x))) if x == b
        ));
    }
}

#[test]
fn checksum_of_a_record_is_a_crc32_of_its_bytes() {
    let file = two_records();
    let len = file.len();
    let mut first = WalIterator::new(file.clone());
    let rec_len = first.next_record().unwrap().unwrap().rec_len as usize;
    let stored = u32::from_le_bytes([
        file[rec_len - 4],
        file[rec_len - 3],
        file[rec_len - 2],
        file[rec_len - 1],
    ]);
    assert_eq!(stored, crc32fast::hash(&file[..rec_len - 4]));
    assert!(rec_len < len);
}

#[test]
fn ends_of_transactions_are_logged() {
    let mut wal = fresh();
    let mut out = Outbox::new();
    assert_eq!(wal.log_commit(7), 0);
    assert_eq!(wal.log_abort(8), 1);
    wal.flush_up_to(1, &mut out);
    let mut it = WalIterator::new(log_file(&mut out));
    let first = it.next_record().unwrap().unwrap();
    assert_eq!((first.lsn, first.txn_id, first.entry_type), (0, 7, WalRecordType::Commit));
    let second = it.next_record().unwrap().unwrap();
    assert_eq!((second.lsn, second.txn_id, second.entry_type), (1, 8, WalRecordType::Abort));
    assert!(it.next_record().is_none());
}
