use btree_leaf::codec::{encode_record, Pair};
use btree_leaf::leaf::{Header, Leaf, LEAF_HEADER_SIZE, MIN_PAGE_SIZE};
use btree_leaf::lex::compare_keys;
use btree_leaf::page_id::{PageId, INVALID_PAGE_ID};
use btree_leaf::slotted::{Slotted, POINTER_SIZE, SLOTTED_HEADER_SIZE};
use std::cmp::Ordering;

fn insert_at_search_point(leaf: &mut Leaf, key: &[u8], value: &[u8]) -> Option<()> {
    let slot_id = leaf.search_slot_id(key).unwrap_err();
    leaf.insert(slot_id, key, value)
}

fn keys(leaf: &Leaf) -> Vec<Vec<u8>> {
    (0..leaf.num_pairs()).map(|i| leaf.pair_at(i).key).collect()
}

#[test]
fn arrival_order_a_c_b_is_stored_sorted() {
    let mut leaf = Leaf::new(4096);
    leaf.initialize();
    assert_eq!(insert_at_search_point(&mut leaf, b"a", b"1"), Some(()));
    assert_eq!(insert_at_search_point(&mut leaf, b"c", b"3"), Some(()));
    assert_eq!(insert_at_search_point(&mut leaf, b"b", b"2"), Some(()));
    assert_eq!(keys(&leaf), vec![b"a".to_vec(), b"b".to_vec(), b"c".to_vec()]);
    assert_eq!(leaf.pair_at(0).value, b"1".to_vec());
    assert_eq!(leaf.pair_at(1).value, b"2".to_vec());
    assert_eq!(leaf.pair_at(2).value, b"3".to_vec());
    assert_eq!(leaf.search_slot_id(b"b"), Ok(1));
    assert_eq!(leaf.search_slot_id(b"ab"), Err(1));
}

#[test]
fn search_on_empty_leaf_points_to_zero() {
    let leaf = Leaf::new(4096);
    assert_eq!(leaf.search_slot_id(b"anything"), Err(0));
    assert_eq!(leaf.search_slot_id(b""), Err(0));
    assert!(leaf.search_pair(b"anything").is_none());
}

#[test]
fn search_matches_linear_scan() {
    let mut leaf = Leaf::new(4096);
    for k in [&b"m"[..], b"d", b"x", b"dd", b"a", b"", b"zz"] {
        assert_eq!(insert_at_search_point(&mut leaf, k, b"v"), Some(()));
    }
    let stored = keys(&leaf);
    let probes: [&[u8]; 10] = [b"", b"0", b"a", b"b", b"d", b"da", b"dd", b"m", b"y", b"zzz"];
    for probe in probes {
        let mut expected = Err(stored.len());
        for (i, k) in stored.iter().enumerate() {
            if k.as_slice() == probe {
                expected = Ok(i);
                break;
            }
            if k.as_slice() > probe {
                expected = Err(i);
                break;
            }
        }
        assert_eq!(leaf.search_slot_id(probe), expected);
    }
}

#[test]
fn keys_ascend_after_many_inserts() {
    let mut leaf = Leaf::new(4096);
    let mut n: u32 = 7;
    for _ in 0..60 {
        n = (n * 37 + 11) % 101;
        let key = format!("k{}", n).into_bytes();
        if leaf.search_slot_id(&key).is_err() {
            assert_eq!(insert_at_search_point(&mut leaf, &key, b"x"), Some(()));
        }
    }
    let stored = keys(&leaf);
    for i in 1..stored.len() {
        assert!(stored[i - 1] < stored[i]);
    }
}

#[test]
fn inserted_pair_is_found_with_its_bytes() {
    let mut leaf = Leaf::new(1024);
    insert_at_search_point(&mut leaf, b"k1", b"one").unwrap();
    insert_at_search_point(&mut leaf, b"k3", b"three").unwrap();
    let key = [0u8, 255, 7, 0];
    let value = [9u8, 0, 0, 1, 2];
    let slot_id = leaf.search_slot_id(&key).unwrap_err();
    assert_eq!(leaf.insert(slot_id, &key, &value), Some(()));
    assert_eq!(leaf.search_slot_id(&key), Ok(slot_id));
    let pair = leaf.pair_at(slot_id);
    assert_eq!(pair.key, key.to_vec());
    assert_eq!(pair.value, value.to_vec());
    let found = leaf.search_pair(&key).unwrap();
    assert_eq!(found.value, value.to_vec());
}

#[test]
fn empty_key_and_value_round_trip() {
    let mut leaf = Leaf::new(256);
    assert_eq!(insert_at_search_point(&mut leaf, b"", b""), Some(()));
    assert_eq!(leaf.search_slot_id(b""), Ok(0));
    let pair = leaf.pair_at(0);
    assert!(pair.key.is_empty());
    assert!(pair.value.is_empty());
}

#[test]
fn prev_link_round_trips_through_sentinel() {
    let mut leaf = Leaf::new(256);
    leaf.set_prev_page_id(Some(PageId(42)));
    assert_eq!(leaf.prev_page_id(), Some(PageId(42)));
    leaf.set_prev_page_id(None);
    assert_eq!(leaf.prev_page_id(), None);
    leaf.set_prev_page_id(Some(PageId(0)));
    assert_eq!(leaf.prev_page_id(), Some(PageId(0)));
    assert_eq!(leaf.next_page_id(), None);
}

#[test]
fn next_link_round_trips_through_sentinel() {
    let mut leaf = Leaf::new(256);
    leaf.st_next_page_id(Some(PageId(7)));
    assert_eq!(leaf.next_page_id(), Some(PageId(7)));
    assert_eq!(leaf.prev_page_id(), None);
    leaf.st_next_page_id(None);
    assert_eq!(leaf.next_page_id(), None);
}

#[test]
fn sentinel_identifier_reads_as_absent() {
    let mut leaf = Leaf::new(256);
    leaf.set_prev_page_id(Some(PageId(INVALID_PAGE_ID)));
    assert_eq!(leaf.prev_page_id(), None);
    assert_eq!(PageId(INVALID_PAGE_ID).valid(), None);
    assert_eq!(PageId(5).valid(), Some(PageId(5)));
    assert_eq!(PageId::from_option(None), PageId(u64::MAX));
    assert_eq!(PageId::from_option(Some(PageId(3))), PageId(3));
}

#[test]
fn full_leaf_refuses_insert_and_stays_unchanged() {
    // A 128-byte page leaves 104 bytes for records and their entries.
    let mut leaf = Leaf::new(128);
    assert_eq!(leaf.max_pair_size(), 48);
    let value = [1u8; 20];
    assert_eq!(insert_at_search_point(&mut leaf, b"a", &value), Some(()));
    assert_eq!(insert_at_search_point(&mut leaf, b"b", &value), Some(()));
    assert_eq!(leaf.num_pairs(), 2);
    assert_eq!(insert_at_search_point(&mut leaf, b"c", &value), None);
    assert_eq!(leaf.num_pairs(), 2);
    assert_eq!(keys(&leaf), vec![b"a".to_vec(), b"b".to_vec()]);
    assert_eq!(leaf.search_slot_id(b"c"), Err(2));
    // A smaller record still fits in the 22 bytes left.
    assert_eq!(insert_at_search_point(&mut leaf, b"c", b""), Some(()));
    assert_eq!(leaf.num_pairs(), 3);
}

#[test]
fn largest_pair_fits_in_empty_leaf() {
    let mut leaf = Leaf::new(128);
    let value = [3u8; 31];
    assert_eq!(16 + 1 + value.len(), leaf.max_pair_size());
    assert_eq!(insert_at_search_point(&mut leaf, b"k", &value), Some(()));
    assert_eq!(leaf.pair_at(0).value, value.to_vec());
}

#[test]
fn initialize_resets_links_and_pairs() {
    let mut leaf = Leaf::new(512);
    leaf.set_prev_page_id(Some(PageId(1)));
    leaf.st_next_page_id(Some(PageId(2)));
    insert_at_search_point(&mut leaf, b"a", b"1").unwrap();
    leaf.initialize();
    assert_eq!(leaf.num_pairs(), 0);
    assert_eq!(leaf.prev_page_id(), None);
    assert_eq!(leaf.next_page_id(), None);
    assert_eq!(leaf.search_slot_id(b"a"), Err(0));
}

#[test]
fn new_leaf_is_empty() {
    let leaf = Leaf::new(MIN_PAGE_SIZE);
    assert_eq!(leaf.num_pairs(), 0);
    assert_eq!(leaf.prev_page_id(), None);
    assert_eq!(leaf.next_page_id(), None);
    assert_eq!(leaf.max_pair_size(), 0);
    assert_eq!(LEAF_HEADER_SIZE, 16);
}

#[test]
fn record_layout_is_length_prefixed_little_endian() {
    let bytes = encode_record(b"ab", b"xyz");
    let mut expected = vec![2u8, 0, 0, 0, 0, 0, 0, 0, b'a', b'b'];
    expected.extend_from_slice(&[3u8, 0, 0, 0, 0, 0, 0, 0, b'x', b'y', b'z']);
    assert_eq!(bytes, expected);
}

#[test]
fn record_length_prefix_uses_every_byte() {
    let key = vec![5u8; 300];
    let bytes = encode_record(&key, b"");
    assert_eq!(&bytes[..8], &[44u8, 1, 0, 0, 0, 0, 0, 0]);
    let pair = Pair::from_bytes(&bytes);
    assert_eq!(pair.key, key);
    assert!(pair.value.is_empty());
}

#[test]
fn pair_bytes_round_trip() {
    let pair = Pair { key: b"key".to_vec(), value: b"value".to_vec() };
    let bytes = pair.to_bytes();
    assert_eq!(bytes.len(), 16 + 3 + 5);
    let back = Pair::from_bytes(&bytes);
    assert_eq!(back.key, b"key".to_vec());
    assert_eq!(back.value, b"value".to_vec());
}

#[test]
fn keys_compare_bytewise() {
    assert_eq!(compare_keys(b"a", b"b"), Ordering::Less);
    assert_eq!(compare_keys(b"b", b"a"), Ordering::Greater);
    assert_eq!(compare_keys(b"ab", b"ab"), Ordering::Equal);
    assert_eq!(compare_keys(b"a", b"ab"), Ordering::Less);
    assert_eq!(compare_keys(b"", b""), Ordering::Equal);
    assert_eq!(compare_keys(&[200u8], &[7u8, 9]), Ordering::Greater);
}

#[test]
fn slotted_body_accounts_for_entries() {
    let mut body = Slotted::new(64);
    assert_eq!(body.capacity(), 64 - SLOTTED_HEADER_SIZE);
    assert_eq!(body.insert(0, vec![1, 2, 3]), Some(()));
    assert_eq!(body.free_space(), 56 - 3 - POINTER_SIZE);
    assert_eq!(body.insert(0, vec![9]), Some(()));
    assert_eq!(body.num_slots(), 2);
    assert_eq!(body.slot(0), &[9u8][..]);
    assert_eq!(body.slot(1), &[1u8, 2, 3][..]);
    assert_eq!(body.insert(2, vec![0; 60]), None);
    assert_eq!(body.num_slots(), 2);
    body.initialize();
    assert_eq!(body.num_slots(), 0);
    assert_eq!(body.free_space(), 56);
}

#[test]
fn header_bytes_are_prev_then_next_little_endian() {
    let header = Header { prev_page_id: PageId(0x0102), next_page_id: PageId(INVALID_PAGE_ID) };
    let bytes = header.to_bytes();
    assert_eq!(bytes.len(), LEAF_HEADER_SIZE);
    assert_eq!(&bytes[..8], &[2u8, 1, 0, 0, 0, 0, 0, 0]);
    assert_eq!(&bytes[8..], &[255u8; 8]);
    assert_eq!(Header::from_bytes(&bytes), header);
}

#[test]
fn leaf_over_page_reads_links_from_header() {
    let header = Header { prev_page_id: PageId(9), next_page_id: PageId(INVALID_PAGE_ID) };
    let mut page = header.to_bytes();
    page.resize(256, 0);
    let leaf = Leaf::from_page(&page);
    assert_eq!(leaf.prev_page_id(), Some(PageId(9)));
    assert_eq!(leaf.next_page_id(), None);
    assert_eq!(leaf.num_pairs(), 0);
    assert_eq!(leaf.max_pair_size(), (256 - 16 - 8) / 2 - 4);
    assert_eq!(leaf.header(), header);
}
