use fluxdb::change::Change;
use fluxdb::constants::{MAX_KEY_SIZE, MAX_VALUE_SIZE, PAGE_SIZE};
use fluxdb::disk::{DiskManager, IoAction};
use fluxdb::error::IndexError;
use fluxdb::index::BTreeIndex;
use fluxdb::key::ByteKey;
use fluxdb::manager::BufferPoolManager;
use fluxdb::mvcc::check_write_conflict;
use fluxdb::node::{LeafPage, Node};
use fluxdb::scan::KeyBound;
use fluxdb::transaction::{Snapshot, Transaction};
use fluxdb::transaction_manager::TransactionManager;
use fluxdb::wal::{Wal, WalIterator, WalRecord, WalRecordType};

/// An index, and transactions that see everything written before.
struct Fixture {
    idx: BTreeIndex<ByteKey>,
    tm: TransactionManager,
    next: u64,
    pages: Vec<Vec<u8>>,
    log: Vec<u8>,
}

impl Fixture {
    fn of(idx: BTreeIndex<ByteKey>) -> Fixture {
        Fixture { idx, tm: TransactionManager::new(), next: 1, pages: Vec::new(), log: Vec::new() }
    }

    fn new() -> Fixture {
        Fixture::of(BTreeIndex::create().0)
    }

    fn auto(&mut self) -> Transaction {
        let txn_id = self.next;
        self.next += 1;
        Transaction {
            txn_id,
            snapshot: Snapshot {
                xmin: u64::MAX,
                xmax: u64::MAX,
                active: Vec::new(),
                aborted: Vec::new(),
            },
            wrote_anything: false,
        }
    }

    fn insert(&mut self, key: &[u8], value: &[u8]) -> Result<(), IndexError> {
        let t = self.auto();
        self.idx.insert(key, value, &t, &self.tm)
    }

    fn update(&mut self, key: &[u8], value: &[u8]) -> Result<(), IndexError> {
        let t = self.auto();
        self.idx.update(key, value, &t, &self.tm)
    }

    fn delete(&mut self, key: &[u8]) -> Result<(), IndexError> {
        let t = self.auto();
        self.idx.delete(key, &t, &self.tm)
    }

    fn get(&mut self, key: &[u8]) -> Option<Vec<u8>> {
        let t = self.auto();
        self.idx.get(key, &t, &self.tm)
    }

    fn range(&mut self, start: KeyBound, end: KeyBound) -> Vec<(Vec<u8>, Vec<u8>)> {
        let t = self.auto();
        collect(&mut self.idx, start, end, &t, &self.tm)
    }

    /// Does what the host has been asked to do.
    fn host(&mut self) {
        for action in self.idx.store.take_actions() {
            match action {
                IoAction::AppendLog(bytes) => self.log.extend_from_slice(&bytes),
                IoAction::WritePage(id, bytes) => {
                    while self.pages.len() <= id as usize {
                        self.pages.push(vec![0; PAGE_SIZE]);
                    }
                    self.pages[id as usize] = bytes;
                }
                IoAction::SyncLog | IoAction::SyncData => {}
            }
        }
    }

    /// Opens the index again from the files.
    fn reopen(mut self) -> Fixture {
        self.host();
        let (wal, _) = Wal::new(self.log.clone()).unwrap();
        let disk = DiskManager::open(self.pages.clone());
        let idx = BTreeIndex::open(BufferPoolManager::new(disk, wal)).unwrap();
        Fixture { idx, ..self }
    }

    fn records(&mut self) -> Vec<WalRecord> {
        self.host();
        let mut it = WalIterator::new(self.log.clone());
        let mut v = Vec::new();
        while let Some(r) = it.next_record() {
            v.push(r.unwrap());
        }
        v
    }

    fn leaf(&mut self, pid: u64) -> LeafPage {
        match self.idx.store.load(pid) {
            Node::Leaf(l) => l,
            Node::Internal(_) => panic!("page {pid} is not a leaf"),
        }
    }
}

impl Fixture {
    fn count_leaves(&mut self) -> usize {
        let mut n = 1;
        let pid = self.idx.find_leftmost_leaf();
        let mut leaf = self.leaf(pid);
        while let Some(next) = leaf.rightlink {
            n += 1;
            leaf = self.leaf(next);
        }
        n
    }
}

fn collect(
    idx: &mut BTreeIndex<ByteKey>,
    start: KeyBound,
    end: KeyBound,
    txn: &Transaction,
    tm: &TransactionManager,
) -> Vec<(Vec<u8>, Vec<u8>)> {
    let mut scan = idx.range(&start, &end);
    let mut v = Vec::new();
    while let Some(kv) = scan.next(idx, txn, tm) {
        v.push(kv);
    }
    v
}

fn all() -> (KeyBound, KeyBound) {
    (KeyBound::Unbounded, KeyBound::Unbounded)
}

// ── Basic get / insert ────────────────────────────────────────────────────────

#[test]
fn get_missing_key_returns_none() {
    let mut f = Fixture::new();
    assert!(f.get(b"hello").is_none());
}

#[test]
fn insert_and_get_single_entry() {
    let mut f = Fixture::new();
    f.insert(b"key", b"value").unwrap();
    let got = f.get(b"key").unwrap();
    assert_eq!(got, b"value");
}

#[test]
fn insert_duplicate_returns_error() {
    let mut f = Fixture::new();
    f.insert(b"k", b"v1").unwrap();
    match f.insert(b"k", b"v2") {
        Err(IndexError::DuplicateKey) => {}
        other => panic!("expected DuplicateKey, got {:?}", other),
    }
}

// ── Update ───────────────────────────────────────────────────────────────────

#[test]
fn update_returns_new_value() {
    let mut f = Fixture::new();
    f.insert(b"k", b"v1").unwrap();
    f.update(b"k", b"v2").unwrap();
    let got = f.get(b"k").unwrap();
    assert_eq!(got, b"v2");
}

#[test]
fn update_missing_key_returns_error() {
    let mut f = Fixture::new();
    match f.update(b"nope", b"v") {
        Err(IndexError::KeyNotFound) => {}
        other => panic!("expected KeyNotFound, got {:?}", other),
    }
}

// ── Delete ───────────────────────────────────────────────────────────────────

#[test]
fn delete_missing_key_returns_error() {
    let mut f = Fixture::new();
    match f.delete(b"nope") {
        Err(IndexError::KeyNotFound) => {}
        other => panic!("expected KeyNotFound, got {:?}", other),
    }
}

#[test]
fn insert_then_delete() {
    let mut f = Fixture::new();
    f.insert(b"k", b"v").unwrap();
    f.delete(b"k").unwrap();
    assert!(f.get(b"k").is_none());
}

#[test]
fn insert_after_delete() {
    let mut f = Fixture::new();
    f.insert(b"k", b"v1").unwrap();
    f.delete(b"k").unwrap();
    // After delete, insert a new version — should succeed (old is dead).
    let r = f.insert(b"k", b"v2");
    assert!(r.is_ok(), "insert after delete failed: {:?}", r.err());
    let got = f.get(b"k");
    assert!(got.is_some(), "get returned None after insert-after-delete");
    assert_eq!(got.unwrap(), b"v2");
}

// ── Reopen / metadata page ───────────────────────────────────────────────────

#[test]
fn reopen_recovers_root_and_data() {
    let mut f = Fixture::new();
    for k in 0u32..300 {
        f.insert(&k.to_be_bytes(), &(k * 7).to_be_bytes()).unwrap();
    }
    f.idx.store.flush_pages();

    // The root id comes from the superblock.
    let mut f = f.reopen();
    for k in 0u32..300 {
        let expected = (k * 7).to_be_bytes();
        let got = f.get(&k.to_be_bytes());
        assert_eq!(got.as_deref(), Some(&expected[..]), "key {k} wrong after reopen");
    }
}

#[test]
fn reopen_after_create_makes_root_durable() {
    let f = Fixture::new();
    let mut f = f.reopen();
    assert!(f.get(b"anything").is_none());
}

// ── Sequential inserts / splits ──────────────────────────────────────────────

#[test]
fn sequential_inserts_all_readable() {
    let mut f = Fixture::new();
    for i in 0u64..200 {
        f.insert(&i.to_be_bytes(), &(i * 10).to_be_bytes()).unwrap();
    }
    for i in 0u64..200 {
        let expected = (i * 10).to_be_bytes();
        let got = f.get(&i.to_be_bytes()).unwrap_or_else(|| panic!("key {} missing", i));
        assert_eq!(got, expected.as_ref());
    }
}

#[test]
fn large_insert_all_keys_readable() {
    let mut f = Fixture::new();
    for i in 0u32..2000 {
        f.insert(&i.to_be_bytes(), &(i + 1).to_be_bytes()).unwrap();
    }
    for i in 0u32..2000 {
        let expected = (i + 1).to_be_bytes();
        let got = f.get(&i.to_be_bytes()).unwrap_or_else(|| panic!("key {} missing", i));
        assert_eq!(got, expected.as_ref());
    }
}

#[test]
fn reverse_order_inserts_all_readable() {
    let mut f = Fixture::new();
    for i in (0u32..500).rev() {
        let k = i.to_be_bytes();
        f.insert(&k, &k).unwrap();
    }
    for i in 0u32..500 {
        let k = i.to_be_bytes();
        let got = f.get(&k).unwrap_or_else(|| panic!("key {} missing", i));
        assert_eq!(got, k.as_ref());
    }
}

#[test]
fn descent_finishes_incomplete_split() {
    let mut f = Fixture::new();
    for i in (0u32..2000).step_by(2) {
        let k = i.to_be_bytes();
        f.insert(&k, &k).unwrap();
    }

    // Leftmost leaf — it has split, so it carries a rightlink + high key.
    let mut pid = f.idx.root_page_id();
    let leftmost = loop {
        match f.idx.store.load(pid) {
            Node::Leaf(_) => break pid,
            Node::Internal(p) => pid = p.children[0],
        }
    };
    assert!(f.leaf(leftmost).rightlink.is_some(), "test needs a split tree");

    // Simulate a recovered/raced incomplete split: flag set, downlink present.
    let mut flagged = f.leaf(leftmost);
    flagged.incomplete_split = true;
    f.idx.store.write_one(
        WalRecordType::PageCompact,
        0,
        leftmost,
        Change::Image(Node::Leaf(flagged)),
    );
    assert!(f.leaf(leftmost).incomplete_split);

    // An insert that descends through the leaf must finish the split.
    let k1 = 1u32.to_be_bytes();
    f.insert(&k1, &k1).unwrap();

    assert!(
        !f.leaf(leftmost).incomplete_split,
        "descent should have cleared the flag",
    );

    // No duplicate downlink, no lost data.
    assert_eq!(f.get(&k1).unwrap(), k1.as_ref());
    for i in (0u32..2000).step_by(2) {
        assert!(f.get(&i.to_be_bytes()).is_some(), "key {} missing", i);
    }
}

// ── Delete bulk ──────────────────────────────────────────────────────────────

#[test]
fn delete_half_keys_remaining_readable() {
    let mut f = Fixture::new();
    for i in 0u32..200 {
        let k = i.to_be_bytes();
        f.insert(&k, &k).unwrap();
    }
    for i in (0u32..200).filter(|x| x % 2 == 0) {
        f.delete(&i.to_be_bytes()).unwrap();
    }
    for i in (0u32..200).filter(|x| x % 2 == 1) {
        f.get(&i.to_be_bytes()).unwrap_or_else(|| panic!("odd key {} missing", i));
    }
    for i in (0u32..200).filter(|x| x % 2 == 0) {
        assert!(f.get(&i.to_be_bytes()).is_none());
    }
}

// ── Update bulk ──────────────────────────────────────────────────────────────

#[test]
fn stress_update_all_keys() {
    let mut f = Fixture::new();
    let n = 200u32;
    for i in 0..n {
        let k = i.to_be_bytes();
        f.insert(&k, &k).unwrap();
    }
    for i in 0..n {
        f.update(&i.to_be_bytes(), &(i + 1000).to_be_bytes()).unwrap();
    }
    for i in 0..n {
        let expected = (i + 1000).to_be_bytes();
        let got = f
            .get(&i.to_be_bytes())
            .unwrap_or_else(|| panic!("key {} missing after update", i));
        assert_eq!(got, expected.as_ref());
    }
}

// ── Range scan ───────────────────────────────────────────────────────────────

#[test]
fn range_scan_full() {
    let mut f = Fixture::new();
    for i in 0u32..100 {
        let k = i.to_be_bytes();
        f.insert(&k, &k).unwrap();
    }
    let (start, end) = all();
    let results = f.range(start, end);
    assert_eq!(results.len(), 100);
}

#[test]
fn range_scan_skips_deleted() {
    let mut f = Fixture::new();
    for i in 0u32..10 {
        let k = i.to_be_bytes();
        f.insert(&k, &k).unwrap();
    }
    for &i in &[3u32, 5, 7] {
        f.delete(&i.to_be_bytes()).unwrap();
    }
    let (start, end) = all();
    let results = f.range(start, end);
    assert_eq!(results.len(), 7);
}

#[test]
fn range_scan_bounded() {
    let mut f = Fixture::new();
    for i in 0u32..100 {
        let k = i.to_be_bytes();
        f.insert(&k, &k).unwrap();
    }
    let results = f.range(
        KeyBound::Included(10u32.to_be_bytes().to_vec()),
        KeyBound::Excluded(20u32.to_be_bytes().to_vec()),
    );
    assert_eq!(results.len(), 10);
}

#[test]
fn range_scan_included_start_can_miss_only_visible_duplicate_before_position_result() {
    let mut tm = TransactionManager::new();
    let mut f = Fixture::new();

    let duplicate_key = 40u32.to_be_bytes();
    let after_duplicate_key = 50u32.to_be_bytes();
    let after_duplicate_value = 50u32.to_be_bytes();
    let value_1 = 1u32.to_be_bytes();
    let value_2 = 2u32.to_be_bytes();
    let value_3 = 3u32.to_be_bytes();

    let seed_txn = tm.begin(0);
    f.idx.insert(&after_duplicate_key, &after_duplicate_value, &seed_txn, &tm).unwrap();
    tm.mark_committed(seed_txn.txn_id);

    let txn1 = tm.begin(0);
    f.idx.insert(&duplicate_key, &value_1, &txn1, &tm).unwrap();
    tm.mark_committed(txn1.txn_id);

    let txn2 = tm.begin(0);
    f.idx.update(&duplicate_key, &value_2, &txn2, &tm).unwrap();
    tm.mark_committed(txn2.txn_id);

    let reader = tm.begin(0);

    let txn3 = tm.begin(0);
    f.idx.update(&duplicate_key, &value_3, &txn3, &tm).unwrap();

    {
        let root = f.idx.root_page_id();
        let leaf = f.leaf(root);

        assert_eq!(leaf.entries.len(), 4);
        assert_eq!(leaf.entries[0].value, value_2);
        assert_eq!(leaf.entries[1].value, value_3);
        assert_eq!(leaf.entries[2].value, value_1);
        assert_eq!(leaf.entries[3].value, after_duplicate_value);

        assert!(reader.is_visible(&tm, leaf.entries[0].xmin, leaf.entries[0].xmax));
        assert!(!reader.is_visible(&tm, leaf.entries[1].xmin, leaf.entries[1].xmax));
        assert!(!reader.is_visible(&tm, leaf.entries[2].xmin, leaf.entries[2].xmax));

        assert_eq!(
            leaf.position::<ByteKey>(&duplicate_key).0,
            2,
            "test setup expects position(40) to land after the visible duplicate"
        );
    }

    let results = collect(
        &mut f.idx,
        KeyBound::Included(duplicate_key.to_vec()),
        KeyBound::Included(duplicate_key.to_vec()),
        &reader,
        &tm,
    );

    assert_eq!(
        results,
        vec![(duplicate_key.to_vec(), value_2.to_vec())],
        "range scan should return the only visible physical record for key 40"
    );
}

#[test]
fn backward_scan_is_the_forward_scan_reversed() {
    let mut f = Fixture::new();
    for i in 0u32..700 {
        let k = i.to_be_bytes();
        f.insert(&k, &k).unwrap();
    }
    for i in (0u32..700).step_by(3) {
        f.delete(&i.to_be_bytes()).unwrap();
    }
    let start = KeyBound::Excluded(100u32.to_be_bytes().to_vec());
    let end = KeyBound::Included(600u32.to_be_bytes().to_vec());
    let forward = f.range(start.copy(), end.copy());
    let txn = f.auto();
    let mut scan = f.idx.range_backward(&start, &end);
    let mut backward = Vec::new();
    while let Some(kv) = scan.next(&mut f.idx, &txn, &f.tm) {
        backward.push(kv);
    }
    backward.reverse();
    let expected: Vec<u32> = (101u32..=600).filter(|i| i % 3 != 0).collect();
    let keys: Vec<u32> = forward
        .iter()
        .map(|(k, _)| u32::from_be_bytes([k[0], k[1], k[2], k[3]]))
        .collect();
    assert_eq!(keys, expected);
    assert_eq!(backward, forward);
}

// ── Write conflict ───────────────────────────────────────────────────────────

#[test]
fn write_conflict_on_concurrent_delete() {
    let mut tm = TransactionManager::new();
    let mut f = Fixture::new();

    // 1. Insert a key.
    let insert_txn = tm.begin(0);
    f.idx.insert(b"k", b"v", &insert_txn, &tm).unwrap();
    tm.mark_committed(insert_txn.txn_id);

    // 2. Start txn10 and delete the key.
    let txn10 = tm.begin(0);
    f.idx.delete(b"k", &txn10, &tm).unwrap();

    // 3. Start txn20. It should see txn10 as active.
    let txn20 = tm.begin(0);

    match f.idx.delete(b"k", &txn20, &tm) {
        Err(IndexError::WriteConflict) => {}
        other => panic!("expected WriteConflict, got {:?}", other),
    }
}

#[test]
fn only_the_older_transaction_waits() {
    let mut tm = TransactionManager::new();
    let mut f = Fixture::new();
    let setup = tm.begin(0);
    f.idx.insert(b"k", b"v", &setup, &tm).unwrap();
    tm.mark_committed(setup.txn_id);
    let older = tm.begin(0);
    let middle = tm.begin(0);
    let younger = tm.begin(0);
    f.idx.update(b"k", b"middle", &middle, &tm).unwrap();
    f.idx.insert(b"l", b"middle", &middle, &tm).unwrap();
    assert_eq!(
        f.idx.update(b"k", b"older", &older, &tm),
        Err(IndexError::WaitFor(middle.txn_id))
    );
    assert_eq!(f.idx.delete(b"k", &older, &tm), Err(IndexError::WaitFor(middle.txn_id)));
    assert_eq!(
        f.idx.insert(b"l", b"older", &older, &tm),
        Err(IndexError::WaitFor(middle.txn_id))
    );
    assert_eq!(f.idx.update(b"k", b"younger", &younger, &tm), Err(IndexError::WriteConflict));
    assert_eq!(f.idx.delete(b"k", &younger, &tm), Err(IndexError::WriteConflict));
    assert_eq!(f.idx.insert(b"l", b"younger", &younger, &tm), Err(IndexError::WriteConflict));
    match fluxdb::mvcc::wait_for_txn(&mut tm, middle.txn_id, younger.txn_id) {
        Err(IndexError::WriteConflict) => {}
        other => panic!("expected WriteConflict, got {:?}", other),
    }
}

/// The pages of each level, leaves first, along the right links.
fn levels(f: &mut Fixture) -> Vec<Vec<u64>> {
    let mut all = Vec::new();
    let mut first = f.idx.root_page_id();
    loop {
        let mut level = Vec::new();
        let mut next = Some(first);
        let mut child = None;
        while let Some(pid) = next {
            level.push(pid);
            next = match f.idx.store.load(pid) {
                Node::Leaf(l) => l.rightlink,
                Node::Internal(p) => {
                    child = child.or(Some(p.children[0]));
                    p.rightlink
                }
            };
        }
        all.push(level);
        match child {
            Some(c) => first = c,
            None => break,
        }
    }
    all.reverse();
    all
}

#[test]
fn every_page_below_the_root_has_one_downlink() {
    let mut f = Fixture::new();
    for i in 0u32..3000 {
        let k = (i.wrapping_mul(2_654_435_761)).to_be_bytes();
        f.insert(&k, &[7u8; 40]).unwrap();
    }
    let all = levels(&mut f);
    assert!(all.len() >= 2);
    assert_eq!(all.last().unwrap().len(), 1);
    for h in 0..all.len() - 1 {
        let mut children = Vec::new();
        for pid in &all[h + 1] {
            match f.idx.store.load(*pid) {
                Node::Internal(p) => {
                    assert!(!p.incomplete_split);
                    children.extend_from_slice(&p.children);
                }
                Node::Leaf(_) => panic!("leaf above the leaves"),
            }
        }
        let mut pages = all[h].clone();
        pages.sort();
        children.sort();
        assert_eq!(children, pages);
    }
}

#[test]
fn versions_of_one_key_may_fill_several_leaves() {
    let mut tm = TransactionManager::new();
    let mut f = Fixture::new();
    let pin = tm.begin(0);
    let t = tm.begin(0);
    f.idx.insert(b"k", &[0u8; 900], &t, &tm).unwrap();
    tm.mark_committed(t.txn_id);
    for i in 1u8..40 {
        let t = tm.begin(0);
        f.idx.update(b"k", &[i; 900], &t, &tm).unwrap();
        tm.mark_committed(t.txn_id);
    }
    let t = tm.begin(0);
    assert_eq!(f.idx.get(b"k", &t, &tm), Some(vec![39u8; 900]));
    assert_eq!(f.idx.get(b"k", &pin, &tm), None);
    let all = levels(&mut f);
    assert!(all[0].len() > 2);
    let mut children = Vec::new();
    for pid in &all[1] {
        match f.idx.store.load(*pid) {
            Node::Internal(p) => children.extend_from_slice(&p.children),
            Node::Leaf(_) => panic!("leaf above the leaves"),
        }
    }
    let mut pages = all[0].clone();
    pages.sort();
    children.sort();
    assert_eq!(children, pages);
}

#[test]
fn the_root_leaf_stays_untouched() {
    let mut f = Fixture::new();
    f.host();
    let log = f.log.len();
    let root = f.idx.root_page_id();
    let before = format!("{:?}", f.leaf(root));
    f.idx.delete_empty_leaf(root, &f.tm);
    f.host();
    assert_eq!(f.log.len(), log);
    assert_eq!(format!("{:?}", f.leaf(root)), before);
}

#[test]
fn a_refused_update_leaves_the_value() {
    let mut tm = TransactionManager::new();
    let mut f = Fixture::new();
    let t = tm.begin(0);
    f.idx.insert(b"k", b"small", &t, &tm).unwrap();
    assert_eq!(
        f.idx.update(b"k", &vec![1u8; MAX_VALUE_SIZE + 1], &t, &tm),
        Err(IndexError::ValueTooLarge { size: MAX_VALUE_SIZE + 1, max: MAX_VALUE_SIZE })
    );
    assert_eq!(f.idx.get(b"k", &t, &tm), Some(b"small".to_vec()));
}

#[test]
fn vacuum_reclaims_space() {
    let mut tm = TransactionManager::new();
    let mut f = Fixture::new();

    // 1. Insert 100 keys and commit.
    for i in 0u32..100 {
        let k = i.to_be_bytes();
        let txn = tm.begin(0);
        f.idx.insert(&k, &k, &txn, &tm).unwrap();
        tm.mark_committed(txn.txn_id);
    }

    // 2. Delete 50 keys and commit.
    for i in 0u32..50 {
        let txn = tm.begin(0);
        f.idx.delete(&i.to_be_bytes(), &txn, &tm).unwrap();
        tm.mark_committed(txn.txn_id);
    }

    // 3. Run vacuum. Since all transactions committed, it should reclaim 50 records.
    let removed = f.idx.vacuum(&mut tm);
    assert_eq!(removed, 50);

    // 4. Verify data is still visible for the 50 live keys.
    let txn = tm.begin(0);
    let (start, end) = all();
    let results = collect(&mut f.idx, start, end, &txn, &tm);
    assert_eq!(results.len(), 50);
}

#[test]
fn emptied_leaves_leave_the_chain() {
    let mut tm = TransactionManager::new();
    let mut f = Fixture::new();
    for i in 0u32..1500 {
        let k = i.to_be_bytes();
        let txn = tm.begin(0);
        f.idx.insert(&k, &k, &txn, &tm).unwrap();
        tm.mark_committed(txn.txn_id);
    }
    for i in 0u32..1400 {
        let txn = tm.begin(0);
        f.idx.delete(&i.to_be_bytes(), &txn, &tm).unwrap();
        tm.mark_committed(txn.txn_id);
    }
    let before = f.count_leaves();
    assert_eq!(f.idx.vacuum(&mut tm), 1400);
    assert_eq!(f.count_leaves(), before);
    let mut pid = f.idx.find_leftmost_leaf();
    loop {
        let leaf = f.leaf(pid);
        if leaf.entries.is_empty() {
            f.idx.delete_empty_leaf(pid, &tm);
        }
        match leaf.rightlink {
            Some(next) => pid = next,
            None => break,
        }
    }
    assert!(f.count_leaves() < before);
    assert!(!f.idx.pending_recycle.is_empty());
    let txn = tm.begin(0);
    let (start, end) = all();
    let left: Vec<u32> = collect(&mut f.idx, start, end, &txn, &tm)
        .iter()
        .map(|(k, _)| u32::from_be_bytes([k[0], k[1], k[2], k[3]]))
        .collect();
    assert_eq!(left, (1400u32..1500).collect::<Vec<u32>>());
}

#[test]
fn compact_prevents_split() {
    let mut tm = TransactionManager::new();
    let mut f = Fixture::new();

    for i in 0u32..80 {
        let v = vec![0xAA; 40]; // padding to fill page
        let txn = tm.begin(0);
        f.idx.insert(&i.to_be_bytes(), &v, &txn, &tm).unwrap();
        tm.mark_committed(txn.txn_id);
    }

    let root_before = f.idx.root_page_id();

    for i in 0u32..40 {
        let txn = tm.begin(0);
        f.idx.delete(&i.to_be_bytes(), &txn, &tm).unwrap();
        tm.mark_committed(txn.txn_id);
    }

    let txn = tm.begin(0);
    let k = 999u32.to_be_bytes();
    let v = vec![0xBB; 40];
    f.idx.insert(&k, &v, &txn, &tm).unwrap();
    tm.mark_committed(txn.txn_id);

    let root_after = f.idx.root_page_id();
    assert_eq!(
        root_before, root_after,
        "Split should have been avoided via compaction"
    );

    let reader = tm.begin(0);
    let result = f.idx.get(&k, &reader, &tm);
    assert!(result.is_some(), "Inserted record should be readable");
}

// ── ValueTooLarge guard ──────────────────────────────────────────────────────

#[test]
fn insert_and_update_reject_oversized_value() {
    let mut f = Fixture::new();
    let k: &[u8] = b"key";
    let oversized = vec![0xFFu8; MAX_VALUE_SIZE + 1];

    // insert should reject
    let err = f.insert(k, &oversized).unwrap_err();
    assert!(matches!(err, IndexError::ValueTooLarge { size, max }
        if size == MAX_VALUE_SIZE + 1 && max == MAX_VALUE_SIZE));

    // insert a small value so we have something to update
    f.insert(k, b"small").unwrap();

    // update should also reject
    let err = f.update(k, &oversized).unwrap_err();
    assert!(matches!(err, IndexError::ValueTooLarge { size, max }
        if size == MAX_VALUE_SIZE + 1 && max == MAX_VALUE_SIZE));
}

#[test]
fn oversized_keys_are_rejected() {
    let mut f = Fixture::new();
    let k = vec![1u8; MAX_KEY_SIZE + 1];
    let too_large = IndexError::KeyTooLarge { size: MAX_KEY_SIZE + 1, max: MAX_KEY_SIZE };
    assert_eq!(f.insert(&k, b"v"), Err(too_large));
    assert_eq!(f.update(&k, b"v"), Err(too_large));
    let k = vec![1u8; MAX_KEY_SIZE];
    assert_eq!(f.insert(&k, b"v"), Ok(()));
    assert_eq!(f.get(&k).as_deref(), Some(&b"v"[..]));
}

#[test]
fn the_largest_values_read_back_through_overflow_pages() {
    let mut f = Fixture::new();
    for i in 0u32..40 {
        let v: Vec<u8> = (0..MAX_VALUE_SIZE).map(|j| (i as usize + j) as u8).collect();
        f.insert(&i.to_be_bytes(), &v).unwrap();
    }
    for i in (0u32..40).step_by(2) {
        f.update(&i.to_be_bytes(), &vec![i as u8; MAX_VALUE_SIZE]).unwrap();
    }
    for i in 0u32..40 {
        let expected: Vec<u8> = if i % 2 == 0 {
            vec![i as u8; MAX_VALUE_SIZE]
        } else {
            (0..MAX_VALUE_SIZE).map(|j| (i as usize + j) as u8).collect()
        };
        assert_eq!(f.get(&i.to_be_bytes()), Some(expected));
    }
}

// ── WAL: physiological Insert logging brings the flush gate to life ──────────

#[test]
fn insert_logs_record_stamps_page_lsn_and_gate_flushes() {
    let (idx, root) = BTreeIndex::create();
    let mut f = Fixture::of(idx);

    // `create` logs nothing, so the LSN counter starts at 0.
    assert_eq!(f.idx.store.wal().next_lsn, 0);

    // Two in-place inserts on the same leaf → two Insert records (LSN 0, 1).
    f.insert(b"a", b"1").unwrap();
    f.insert(b"b", b"2").unwrap();
    assert_eq!(f.idx.store.wal().next_lsn, 2, "each insert appends a record");

    // The leaf page must carry the latest insert's LSN (set_lsn under the latch).
    assert_eq!(f.leaf(root).lsn, 1, "page LSN stamped");

    // Flushing the dirty leaf must drive the WAL durable through that page LSN
    // (the WAL-before-page gate firing on a real, non-zero LSN).
    f.idx.store.flush_pages();
    assert_eq!(
        f.idx.store.wal().flushed_lsn,
        Some(1),
        "gate flushed WAL to page LSN"
    );
}

#[test]
fn delete_emits_one_setxmax() {
    let (idx, root) = BTreeIndex::create();
    let mut f = Fixture::of(idx);

    let txn = f.auto();
    let key: &[u8] = b"a";
    let val: &[u8] = b"1";
    f.insert(key, val).unwrap();

    let n = f.idx.store.wal().next_lsn;
    assert_eq!(n, 1);
    f.idx.delete(key, &txn, &f.tm).unwrap();
    assert!(f.idx.store.wal().next_lsn == n + 1, "delete appends one record");

    // The leaf page must carry the latest delete's LSN (set_lsn under the latch).
    assert_eq!(f.leaf(root).lsn, 1, "page LSN stamped");

    // Flushing the dirty leaf must drive the WAL durable through that page LSN
    // (the WAL-before-page gate firing on a real, non-zero LSN).
    f.idx.store.flush_pages();
    let records = f.records();
    let rec = &records[1];
    assert!(rec.entry_type == WalRecordType::SetXMax);
    assert!(rec.txn_id == txn.txn_id);
    assert!(rec.blocks.len() == 1);
    assert!(rec.blocks[0].page_id == root);
    let data = rec.blocks[0].data.as_deref().unwrap();
    assert!(u16::from_le_bytes(data[0..2].try_into().unwrap()) == 0);
    assert!(u64::from_le_bytes(data[2..10].try_into().unwrap()) == txn.txn_id);
}

#[test]
fn update_emits_setxmax_then_insert_in_lsn_order() {
    let (idx, root) = BTreeIndex::create();
    let mut f = Fixture::of(idx);

    let txn = f.auto();
    let key: &[u8] = b"a";
    let val: &[u8] = b"1";
    let new_val: &[u8] = b"2";
    f.insert(key, val).unwrap();

    let n = f.idx.store.wal().next_lsn;
    assert_eq!(n, 1);

    f.idx.update(key, new_val, &txn, &f.tm).unwrap();
    assert!(f.idx.store.wal().next_lsn == n + 2, "update appends two records");

    // The leaf page must carry the latest delete's LSN (set_lsn under the latch).
    assert_eq!(f.leaf(root).lsn, n + 1, "page LSN stamped");

    f.idx.store.flush_pages();
    let records = f.records();

    let rec = &records[1]; // SetXmax (LSN 1)
    assert_eq!(rec.entry_type, WalRecordType::SetXMax);
    assert_eq!(rec.txn_id, txn.txn_id);
    let xmax_lsn = rec.lsn;

    let rec = &records[2]; // Insert (LSN 2)
    assert_eq!(rec.entry_type, WalRecordType::Insert);
    let ins_lsn = rec.lsn;

    assert!(
        xmax_lsn < ins_lsn,
        "SetXmax must be logged before the new Insert"
    );
}

#[test]
fn a_range_holds_what_gets_return() {
    let mut tm = TransactionManager::new();
    let mut f = Fixture::new();
    for i in 0u32..600 {
        let k = i.to_be_bytes();
        let txn = tm.begin(0);
        f.idx.insert(&k, &k, &txn, &tm).unwrap();
        tm.mark_committed(txn.txn_id);
    }
    for i in (0u32..600).step_by(3) {
        let txn = tm.begin(0);
        f.idx.delete(&i.to_be_bytes(), &txn, &tm).unwrap();
        tm.mark_committed(txn.txn_id);
    }
    for i in (1u32..600).step_by(3) {
        let txn = tm.begin(0);
        f.idx.update(&i.to_be_bytes(), &[9u8; 40], &txn, &tm).unwrap();
        tm.mark_committed(txn.txn_id);
    }
    let txn = tm.begin(0);
    let start = KeyBound::Included(100u32.to_be_bytes().to_vec());
    let end = KeyBound::Excluded(500u32.to_be_bytes().to_vec());
    let mut expected = Vec::new();
    for i in 100u32..500 {
        let k = i.to_be_bytes();
        if let Some(v) = f.idx.get(&k, &txn, &tm) {
            expected.push((k.to_vec(), v));
        }
    }
    let scan = f.idx.range(&start, &end);
    let forward = scan.collect(&mut f.idx, &txn, &tm);
    assert_eq!(forward, expected);
    assert!(forward.windows(2).all(|w| w[0].0 < w[1].0));
    let scan = f.idx.range_backward(&start, &end);
    let mut backward = scan.collect(&mut f.idx, &txn, &tm);
    backward.reverse();
    assert_eq!(backward, expected);
}

#[test]
fn an_empty_leaf_between_others_goes() {
    let mut tm = TransactionManager::new();
    let mut f = Fixture::new();
    for i in 0u32..1500 {
        let k = i.to_be_bytes();
        let txn = tm.begin(0);
        f.idx.insert(&k, &k, &txn, &tm).unwrap();
        tm.mark_committed(txn.txn_id);
    }
    let left = f.idx.find_leftmost_leaf();
    let middle = f.leaf(left).rightlink.unwrap();
    let leaf = f.leaf(middle);
    let right = leaf.rightlink.unwrap();
    for r in &leaf.entries {
        let txn = tm.begin(0);
        f.idx.delete(&r.key, &txn, &tm).unwrap();
        tm.mark_committed(txn.txn_id);
    }
    f.idx.vacuum(&mut tm);
    let root = f.idx.root_page_id();
    let (keys, children) = match f.idx.store.load(root) {
        Node::Internal(p) => (p.keys.len(), p.children.clone()),
        Node::Leaf(_) => panic!("the root is a leaf"),
    };
    f.idx.delete_empty_leaf(middle, &tm);
    assert_eq!(f.leaf(left).rightlink, Some(right));
    assert_eq!(f.leaf(right).prev_page, Some(left));
    match f.idx.store.load(root) {
        Node::Internal(p) => {
            assert_eq!(p.keys.len(), keys - 1);
            let rest: Vec<u64> = children.into_iter().filter(|c| *c != middle).collect();
            assert_eq!(p.children, rest);
        }
        Node::Leaf(_) => panic!("the root is a leaf"),
    }
    assert_eq!(f.idx.pending_recycle.last().map(|p| p.0), Some(middle));
}

#[test]
fn who_meets_a_running_writer_is_told_whom_to_wait_for() {
    let mut tm = TransactionManager::new();
    let older = tm.begin(0);
    let younger = tm.begin(0);
    assert_eq!(
        check_write_conflict(younger.txn_id, &older, &tm),
        Err(IndexError::WaitFor(younger.txn_id))
    );
    assert_eq!(
        check_write_conflict(older.txn_id, &younger, &tm),
        Err(IndexError::WaitFor(older.txn_id))
    );
    let mut f = Fixture::new();
    f.idx.insert(b"k", b"v", &older, &tm).unwrap();
    assert_eq!(f.idx.insert(b"k", b"w", &younger, &tm), Err(IndexError::WriteConflict));
}
