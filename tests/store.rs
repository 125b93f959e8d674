use actionkv::{encode, ActionKV, KeyIndex, KvError, HEADER_LEN};

fn fresh() -> ActionKV {
    let mut kv = ActionKV::open(Vec::new());
    kv.load().unwrap();
    kv
}

#[test]
fn load_of_empty_log_gives_empty_index() {
    let mut kv = ActionKV::open(Vec::new());
    assert_eq!(kv.load(), Ok(()));
    assert_eq!(kv.index().len(), 0);
    assert_eq!(kv.get(b"a"), Ok(None));
}

#[test]
fn open_leaves_index_empty_until_load() {
    let mut log = encode(b"a", b"1");
    log.extend_from_slice(&encode(b"b", b"2"));
    let mut kv = ActionKV::open(log);
    assert_eq!(kv.index().len(), 0);
    assert_eq!(kv.get(b"a"), Ok(None));
    kv.load().unwrap();
    assert_eq!(kv.index().len(), 2);
    assert_eq!(kv.index().get(b"a"), Some(0));
    assert_eq!(kv.index().get(b"b"), Some((HEADER_LEN + 2) as u64));
}

#[test]
fn end_to_end_insert_reopen_load_get() {
    let mut kv = fresh();
    kv.insert(b"a", b"1");
    kv.insert(b"b", b"2");
    kv.insert(b"a", b"3");
    let log = kv.log().to_vec();
    drop(kv);
    let mut reopened = ActionKV::open(log);
    reopened.load().unwrap();
    assert_eq!(reopened.get(b"a"), Ok(Some(b"3".to_vec())));
    assert_eq!(reopened.get(b"b"), Ok(Some(b"2".to_vec())));
    assert_eq!(reopened.get(b"c"), Ok(None));
}

#[test]
fn loading_twice_gives_the_same_index() {
    let mut kv = fresh();
    kv.insert(b"a", b"1");
    kv.insert(b"b", b"2");
    kv.insert(b"a", b"3");
    let mut other = ActionKV::open(kv.log().to_vec());
    other.load().unwrap();
    let first: Vec<Option<u64>> =
        [&b"a"[..], b"b", b"c"].iter().map(|k| other.index().get(k)).collect();
    other.load().unwrap();
    let second: Vec<Option<u64>> =
        [&b"a"[..], b"b", b"c"].iter().map(|k| other.index().get(k)).collect();
    assert_eq!(first, second);
    assert_eq!(first, vec![Some(2 * (HEADER_LEN as u64 + 2)), Some(HEADER_LEN as u64 + 2), None]);
    assert_eq!(other.index().len(), 2);
    // The index kept up by the inserts is the one a reload builds.
    assert_eq!(kv.index().get(b"a"), first[0]);
    assert_eq!(kv.index().get(b"b"), first[1]);
}

#[test]
fn latest_insert_wins() {
    let mut kv = fresh();
    kv.insert(b"k", b"v1");
    let first = kv.index().get(b"k").unwrap();
    let second_offset = kv.log().len() as u64;
    kv.insert(b"k", b"v2");
    assert_eq!(kv.get(b"k"), Ok(Some(b"v2".to_vec())));
    assert_eq!(kv.index().get(b"k"), Some(second_offset));
    assert_ne!(kv.index().get(b"k"), Some(first));
    assert_eq!(kv.index().len(), 1);
}

#[test]
fn update_is_an_insert() {
    let mut kv = fresh();
    kv.insert(b"k", b"old");
    kv.update(b"k", b"new");
    assert_eq!(kv.get(b"k"), Ok(Some(b"new".to_vec())));
    assert_eq!(kv.log().len(), 2 * HEADER_LEN + 4 + 4);
}

#[test]
fn delete_leaves_an_empty_value() {
    let mut kv = fresh();
    kv.insert(b"k", b"v");
    kv.delete(b"k");
    assert_eq!(kv.get(b"k"), Ok(Some(Vec::new())));
    let mut reopened = ActionKV::open(kv.log().to_vec());
    reopened.load().unwrap();
    assert_eq!(reopened.get(b"k"), Ok(Some(Vec::new())));
}

#[test]
fn the_log_keeps_every_record() {
    let mut kv = fresh();
    kv.insert(b"a", b"1");
    kv.insert(b"a", b"2");
    let mut expected = encode(b"a", b"1");
    expected.extend_from_slice(&encode(b"a", b"2"));
    assert_eq!(kv.log(), &expected[..]);
}

#[test]
fn flipped_payload_bit_fails_load_and_read() {
    let mut kv = fresh();
    kv.insert(b"a", b"1");
    kv.insert(b"b", b"2");
    let good = kv.log().to_vec();
    let second = HEADER_LEN + 2;
    for byte in second + HEADER_LEN..good.len() {
        for bit in 0..8 {
            let mut bad = good.clone();
            bad[byte] ^= 1 << bit;
            let mut other = ActionKV::open(bad);
            match other.load() {
                Err(KvError::Corrupt { expected, computed }) => assert_ne!(expected, computed),
                r => panic!("load gave {:?}", r),
            }
            assert_eq!(other.index().len(), 0);
            match other.find(b"2", second as u64) {
                Err(KvError::Corrupt { .. }) => {}
                r => panic!("read gave {:?}", r),
            }
            assert_eq!(other.find(b"1", 0).unwrap().unwrap().key, b"a".to_vec());
        }
    }
}

#[test]
fn corrupt_record_fails_load_of_the_whole_log() {
    let mut log = encode(b"a", b"1");
    log.extend_from_slice(&encode(b"b", b"2"));
    log[HEADER_LEN + 1] ^= 0x01;
    let mut kv = ActionKV::open(log);
    assert_eq!(
        kv.load(),
        Err(KvError::Corrupt { expected: 0x6ce14823, computed: 0x1be678b5 })
    );
    assert_eq!(kv.get(b"b"), Ok(None));
}

#[test]
fn truncated_log_fails_load_and_keeps_index() {
    let mut log = encode(b"a", b"1");
    log.extend_from_slice(&encode(b"b", b"2")[..HEADER_LEN + 1]);
    let mut kv = ActionKV::open(log);
    assert_eq!(kv.load(), Err(KvError::Truncated));
    assert_eq!(kv.index().len(), 0);
}

#[test]
fn find_returns_matching_record_at_position() {
    let mut kv = fresh();
    kv.insert(b"a", b"1");
    kv.insert(b"b", b"2");
    let at_b = (HEADER_LEN + 2) as u64;
    let found = kv.find(b"2", at_b).unwrap().unwrap();
    assert_eq!(found.key, b"b".to_vec());
    assert_eq!(found.value, b"2".to_vec());
    let first = kv.find(b"1", 0).unwrap().unwrap();
    assert_eq!(first.key, b"a".to_vec());
}

#[test]
fn find_stops_at_first_mismatch_or_end() {
    let mut kv = fresh();
    kv.insert(b"a", b"1");
    kv.insert(b"b", b"2");
    assert!(kv.find(b"2", 0).unwrap().is_none());
    assert!(kv.find(b"1", kv.log().len() as u64).unwrap().is_none());
}

#[test]
fn find_reports_truncation() {
    let log = encode(b"a", b"1");
    let kv = ActionKV::open(log[..5].to_vec());
    assert_eq!(kv.find(b"1", 0).unwrap_err(), KvError::Truncated);
}

#[test]
fn key_index_insert_get_len() {
    let mut idx = KeyIndex::new();
    assert_eq!(idx.len(), 0);
    idx.insert(b"x", 5);
    idx.insert(b"y", 9);
    idx.insert(b"x", 12);
    assert_eq!(idx.get(b"x"), Some(12));
    assert_eq!(idx.get(b"y"), Some(9));
    assert_eq!(idx.get(b"z"), None);
    assert_eq!(idx.len(), 2);
}

#[test]
fn bytes_eq_compares_contents() {
    assert!(actionkv::bytes_eq(b"abc", b"abc"));
    assert!(!actionkv::bytes_eq(b"abc", b"abd"));
    assert!(!actionkv::bytes_eq(b"abc", b"ab"));
    assert!(actionkv::bytes_eq(b"", b""));
}
