use fluxdb::bytes::{push_u16, push_u32, push_u64, read_u16, read_u32, read_u64};
use fluxdb::change::OVERFLOW_PAYLOAD_SIZE;
use fluxdb::codec::{decode_node, encode_node};
use fluxdb::constants::PAGE_SIZE;
use fluxdb::error::PageError;
use fluxdb::free_space::{clear_free, locate, scan_free, set_free, BITMAP_START};
use fluxdb::key::{ByteKey, Key, KeyOrder};
use fluxdb::meta::{read_free_space, read_root, set_root};
use fluxdb::node::{InternalPage, LeafPage, Node, Record};
use fluxdb::overflow::OverflowDescriptor;
use fluxdb::overflow_page::{OverflowPageAccessor, OverflowPageBuilder};
use fluxdb::page::{page_lsn, set_lsn, stamp_checksum, verify_checksum, FREE_SPACE, LEAF, META};
use fluxdb::slotted::{BPlusTreeLeafPage, TupleMeta};

#[test]
fn integers_are_little_endian() {
    let mut v = Vec::new();
    push_u16(&mut v, 0x0102);
    push_u32(&mut v, 0x03040506);
    push_u64(&mut v, 0x0708090A0B0C0D0E);
    assert_eq!(v, [2, 1, 6, 5, 4, 3, 14, 13, 12, 11, 10, 9, 8, 7]);
    assert_eq!(read_u16(&v, 0), 0x0102);
    assert_eq!(read_u32(&v, 2), 0x03040506);
    assert_eq!(read_u64(&v, 6), 0x0708090A0B0C0D0E);
}

#[test]
fn keys_are_ordered_byte_by_byte() {
    assert_eq!(ByteKey::compare(b"", b"a"), KeyOrder::Less);
    assert_eq!(ByteKey::compare(b"ab", b"a"), KeyOrder::Greater);
    assert_eq!(ByteKey::compare(b"ab", b"b"), KeyOrder::Less);
    assert_eq!(ByteKey::compare(b"\xff", b"\x01\xff"), KeyOrder::Greater);
    assert_eq!(ByteKey::compare(b"same", b"same"), KeyOrder::Equal);
}

#[test]
fn page_numbers_and_checksums() {
    let mut page = vec![0u8; PAGE_SIZE];
    page[0] = LEAF;
    set_lsn(&mut page, 0x1122334455667788);
    assert_eq!(page_lsn(&page), 0x1122334455667788);
    assert_eq!(page[16..24], 0x1122334455667788u64.to_le_bytes());
    stamp_checksum(&mut page);
    assert!(verify_checksum(&page).is_ok());
    let mut expected = page.clone();
    expected[44..48].fill(0);
    let stored = u32::from_le_bytes([page[44], page[45], page[46], page[47]]);
    assert_eq!(stored, crc32fast::hash(&expected));
    page[17] ^= 1;
    match verify_checksum(&page) {
        Err((expected, actual)) => assert!(expected == stored && actual != stored),
        Ok(()) => panic!("a changed page passed its checksum"),
    }
}

#[test]
fn the_superblock_names_the_root() {
    let mut page = vec![0u8; PAGE_SIZE];
    fluxdb::meta::init(&mut page);
    set_root(&mut page, 77);
    assert_eq!(page[0], META);
    assert_eq!(read_root(&page), 77);
    assert_eq!(read_free_space(&page), 0);
}

#[test]
fn the_bitmap_finds_what_was_set() {
    let mut page = vec![0u8; PAGE_SIZE];
    fluxdb::free_space::init(&mut page, 9);
    assert_eq!(page[0], FREE_SPACE);
    assert_eq!(locate(0), (BITMAP_START, 0));
    assert_eq!(locate(19), (BITMAP_START + 2, 3));
    assert!(set_free(&mut page, 19));
    assert!(set_free(&mut page, 3));
    assert!(!set_free(&mut page, 1_000_000));
    assert_eq!(scan_free(&page), vec![3, 19]);
    clear_free(&mut page, 3);
    assert_eq!(scan_free(&page), vec![19]);
}

#[test]
fn overflow_pages_hold_their_chunk() {
    let mut page = vec![0u8; PAGE_SIZE];
    {
        let mut b = OverflowPageBuilder::new(5, &mut page);
        b.set_next_page_id(Some(6));
        b.set_chunk(b"some bytes").unwrap();
        let mut m = b.finish();
        m.set_lsn(12);
        assert_eq!(m.as_accessor().chunk_len(), 10);
    }
    let a = OverflowPageAccessor::new(&page);
    assert_eq!(a.page_id(), 5);
    assert_eq!(a.lsn(), 12);
    assert_eq!(a.next_page_id(), Some(6));
    assert_eq!(a.payload(), b"some bytes");

    let mut b = OverflowPageBuilder::new(5, &mut page);
    let too_long = vec![0u8; OVERFLOW_PAYLOAD_SIZE + 1];
    assert_eq!(
        b.set_chunk(&too_long),
        Err(PageError::InsufficientSpace {
            needed: OVERFLOW_PAYLOAD_SIZE + 1,
            available: OVERFLOW_PAYLOAD_SIZE
        })
    );
}

#[test]
fn a_shorter_chunk_leaves_nothing_of_the_longer_one() {
    let mut page = vec![0u8; PAGE_SIZE];
    {
        let mut b = OverflowPageBuilder::new(5, &mut page);
        b.set_chunk(&[1, 2, 3, 4]).unwrap();
        let mut m = b.finish();
        m.set_chunk(&[9]).unwrap();
    }
    assert_eq!(page[48], 9);
    assert!(page[49..].iter().all(|b| *b == 0));
    assert_eq!(OverflowPageAccessor::new(&page).payload(), [9]);
}

#[test]
fn descriptors_are_written_lowest_byte_first() {
    let d = OverflowDescriptor { first_page_id: 0x0102, total_size: 0x0A0B };
    assert_eq!(d.to_bytes(), [2, 1, 0, 0, 0, 0, 0, 0, 0x0B, 0x0A, 0, 0]);
}

#[test]
fn descriptors_read_back() {
    let d = OverflowDescriptor { first_page_id: 0xABCDEF, total_size: 2048 };
    let b = d.to_bytes();
    assert_eq!(b.len(), 12);
    assert_eq!(OverflowDescriptor::from_bytes(&b), Some(d));
    assert_eq!(OverflowDescriptor::from_bytes(&b[..11]), None);
}

#[test]
fn nodes_read_back() {
    let leaf = LeafPage {
        page_id: 3,
        lsn: 8,
        incomplete_split: true,
        half_dead: false,
        rightlink: Some(4),
        prev_page: None,
        high_key: Some(b"m".to_vec()),
        entries: vec![
            Record { key: b"a".to_vec(), value: b"1".to_vec(), rec_type: 0, xmin: 5, xmax: 6 },
            Record { key: b"b".to_vec(), value: Vec::new(), rec_type: 0, xmin: 7, xmax: 0 },
        ],
    };
    let b = encode_node(&Node::Leaf(leaf));
    assert_eq!(b.len(), PAGE_SIZE);
    match decode_node(&b) {
        Some(Node::Leaf(l)) => {
            assert_eq!((l.page_id, l.lsn, l.incomplete_split, l.half_dead), (3, 8, true, false));
            assert_eq!((l.rightlink, l.prev_page), (Some(4), None));
            assert_eq!(l.high_key, Some(b"m".to_vec()));
            assert_eq!(l.entries.len(), 2);
            assert_eq!(l.entries[0].key, b"a");
            assert_eq!(l.entries[0].value, b"1");
            assert_eq!((l.entries[0].xmin, l.entries[0].xmax), (5, 6));
            assert_eq!(l.entries[1].key, b"b");
            assert!(l.entries[1].value.is_empty());
        }
        _ => panic!("a leaf reads back as a leaf"),
    }

    let internal = InternalPage {
        page_id: 9,
        lsn: 1,
        incomplete_split: false,
        rightlink: None,
        high_key: None,
        keys: vec![b"k".to_vec()],
        children: vec![3, 4],
    };
    match decode_node(&encode_node(&Node::Internal(internal))) {
        Some(Node::Internal(p)) => {
            assert_eq!(p.page_id, 9);
            assert_eq!(p.keys, vec![b"k".to_vec()]);
            assert_eq!(p.children, vec![3, 4]);
        }
        _ => panic!("an internal page reads back as one"),
    }
    assert!(decode_node(&vec![0u8; PAGE_SIZE]).is_none());
}

#[test]
fn slotted_pages_fill_from_the_end() {
    let mut p = BPlusTreeLeafPage::new(2);
    let meta = TupleMeta {};
    p.insert_tuple_bytes(&meta, b"first").unwrap();
    p.insert_tuple_bytes(&meta, b"second").unwrap();
    assert_eq!(p.header.num_tuples, 2);
    assert_eq!(p.header.free_space_pointer as usize, PAGE_SIZE - 11);
    assert_eq!(p.tuple(0).unwrap().1, b"first");
    assert_eq!(p.tuple(1).unwrap().1, b"second");
    assert!(p.tuple(2).is_err());
    p.set_lsn(4);
    assert_eq!(p.lsn(), 4);

    let large = vec![7u8; PAGE_SIZE];
    assert_eq!(
        p.next_tuple_offset_with_len(large.len()),
        Err("Not enough free space to store tuple")
    );
    assert_eq!(
        p.next_tuple_offset_with_len(PAGE_SIZE - 20),
        Err("Not enough free space: Header collided with Data")
    );
}
