use rust_solo_all_db::engine::codec;
use rust_solo_all_db::engine::naming;
use rust_solo_all_db::engine::{SSTable, WAL};
use rust_solo_all_db::{DbError, Record, Value, WALEntry};

fn data(pairs: &[(&str, Option<&str>)]) -> Vec<Record> {
    pairs
        .iter()
        .map(|(k, v)| Record {
            key: k.to_string(),
            value: match v {
                Some(p) => Value::Data(p.to_string()),
                None => Value::Tombstone,
            },
        })
        .collect()
}

#[test]
fn test_sstable_create_and_read() {
    let records = data(&[("key1", Some("value1")), ("key2", Some("value2")), ("key3", Some("value3"))]);
    let sstable = SSTable::create("test.sst", &records, 0).unwrap();
    assert_eq!(sstable.len(), 3);
    assert_eq!(sstable.get("key1").unwrap(), Some("value1".to_string()));
    assert_eq!(sstable.get("key2").unwrap(), Some("value2".to_string()));
    assert_eq!(sstable.get("key3").unwrap(), Some("value3".to_string()));
    assert_eq!(sstable.get("nonexistent").unwrap(), None);

    let scanned = sstable.scan().unwrap();
    assert_eq!(scanned.len(), 3);
    assert_eq!(scanned[0].key, "key1");
    assert_eq!(scanned[1].key, "key2");
    assert_eq!(scanned[2].key, "key3");
    assert_eq!(sstable.load_records().unwrap(), scanned);
    assert_eq!(sstable.file_path(), "test.sst");
    assert_eq!(sstable.level(), 0);
    assert_eq!(sstable.min_key(), "key1");
    assert_eq!(sstable.max_key(), "key3");
    assert_eq!(sstable.bloom_filter_len(), 29);
}

#[test]
fn test_sstable_reopen() {
    let records = data(&[("persistent_key", Some("persistent_value"))]);
    let bytes = SSTable::create("test_reopen.sst", &records, 0).unwrap().to_bytes();
    let sstable = SSTable::open_at_level("test_reopen.sst", &bytes, 0).unwrap();
    assert_eq!(sstable.len(), 1);
    assert_eq!(sstable.get("persistent_key").unwrap(), Some("persistent_value".to_string()));
}

#[test]
fn test_sstable_range_bounds_and_tombstones() {
    let records = data(&[("b", Some("1")), ("d", None), ("f", Some("3"))]);
    let sstable = SSTable::create("t.sst", &records, 2).unwrap();
    // the keys at both ends of the range are found
    assert_eq!(sstable.get("b").unwrap(), Some("1".to_string()));
    assert_eq!(sstable.get("f").unwrap(), Some("3".to_string()));
    assert_eq!(sstable.get("a").unwrap(), None);
    assert_eq!(sstable.get("g").unwrap(), None);
    assert_eq!(sstable.get("c").unwrap(), None);
    assert_eq!(sstable.get("d").unwrap(), None);
    assert_eq!(sstable.lookup("d"), Some(&Value::Tombstone));
    assert_eq!(sstable.lookup("c"), None);
    assert!(sstable.might_contain("b"));
    assert!(sstable.might_contain("d"));
    assert!(sstable.might_contain("f"));
    assert_eq!(sstable.level(), 2);
}

#[test]
fn test_sstable_refuses_unsorted_records() {
    let unsorted = data(&[("b", Some("1")), ("a", Some("2"))]);
    assert!(matches!(SSTable::create("x.sst", &unsorted, 0), Err(DbError::InvalidArgument(_))));
    let twice = data(&[("a", Some("1")), ("a", Some("2"))]);
    assert!(matches!(SSTable::create("x.sst", &twice, 0), Err(DbError::InvalidArgument(_))));
}

#[test]
fn test_sstable_file_format() {
    let records = data(&[("a", Some("xy")), ("b", None)]);
    let bytes = SSTable::create("f.sst", &records, 0).unwrap().to_bytes();
    let expected: Vec<u8> = vec![
        12, 0, 0, 0, // frame of 12 bytes
        1, 0, 0, 0, b'a', // key
        0, // data
        2, 0, 0, 0, b'x', b'y', // payload
        6, 0, 0, 0, // frame of 6 bytes
        1, 0, 0, 0, b'b', // key
        1, // tombstone
    ];
    assert_eq!(bytes, expected);
}

#[test]
fn test_sstable_corrupt_files() {
    let records = data(&[("a", Some("1")), ("b", Some("2"))]);
    let bytes = SSTable::create("f.sst", &records, 0).unwrap().to_bytes();
    // a file that ends within a frame
    assert!(matches!(
        SSTable::open_at_level("f.sst", &bytes[..bytes.len() - 1], 0),
        Err(DbError::Corrupt(_))
    ));
    // a frame that holds no record
    let mut bad = bytes.clone();
    bad[9] = 7;
    assert!(matches!(SSTable::open_at_level("f.sst", &bad, 0), Err(DbError::Corrupt(_))));
    // records out of order
    let mut swapped = Vec::new();
    swapped.extend_from_slice(&bytes[bytes.len() / 2..]);
    swapped.extend_from_slice(&bytes[..bytes.len() / 2]);
    assert!(matches!(SSTable::open_at_level("f.sst", &swapped, 0), Err(DbError::Corrupt(_))));
    // a payload that is no UTF-8
    let mut not_text = bytes.clone();
    not_text[8] = 0xff;
    assert!(matches!(SSTable::open_at_level("f.sst", &not_text, 0), Err(DbError::Corrupt(_))));
    // an empty file is an empty table
    let empty = SSTable::open_at_level("e.sst", &[], 0).unwrap();
    assert!(empty.is_empty());
    assert_eq!(empty.min_key(), "");
    assert_eq!(empty.max_key(), "");
}

#[test]
fn test_record_codec_round_trip() {
    for record in data(&[("", Some("")), ("k", Some("v")), ("ключ", Some("значение")), ("k", None)]) {
        let bytes = codec::encode_record(&record);
        assert_eq!(codec::decode_record(&bytes), Some(record));
    }
    assert_eq!(codec::decode_record(&[]), None);
    assert_eq!(codec::decode_record(&[0, 0, 0, 0, 2]), None);
    assert_eq!(codec::decode_record(&[0, 0, 0, 0, 1, 9]), None);
    // bytes that are not UTF-8 are no key
    assert_eq!(codec::decode_record(&[2, 0, 0, 0, 0xc3, 0x28, 1]), None);
    assert!(codec::can_store("k", Some("v")));
    assert!(codec::can_store("k", None));
}

#[test]
fn test_log_entry_codec() {
    let insert = WALEntry::Insert { key: "k".to_string(), value: "v".to_string() };
    let delete = WALEntry::Delete { key: "k".to_string() };
    assert_eq!(codec::encode_log_entry(&insert), vec![0, 1, 0, 0, 0, b'k', 1, 0, 0, 0, b'v']);
    assert_eq!(codec::encode_log_entry(&delete), vec![1, 1, 0, 0, 0, b'k']);
    assert_eq!(codec::decode_log_entry(&codec::encode_log_entry(&insert)), Some(insert.clone()));
    assert_eq!(codec::decode_log_entry(&codec::encode_log_entry(&delete)), Some(delete.clone()));
    assert_eq!(codec::decode_log_entry(&[2, 1, 0, 0, 0, b'k']), None);
    assert_eq!(insert.key(), "k");
    assert_eq!(delete.key(), "k");
}

#[test]
fn test_u32_frames() {
    let mut out = Vec::new();
    codec::put_u32(&mut out, 0x0403_0201);
    assert_eq!(out, vec![1, 2, 3, 4]);
    assert_eq!(codec::get_u32(&out, 0), Some(0x0403_0201));
    assert_eq!(codec::get_u32(&out, 1), None);
    codec::put_frame(&mut out, b"abc");
    assert_eq!(out, vec![1, 2, 3, 4, 3, 0, 0, 0, b'a', b'b', b'c']);
    assert_eq!(codec::next_frame(&out, 4), Some((8, 11)));
    assert_eq!(codec::next_frame(&out, 0), None);
}

#[test]
fn test_wal_append_read_truncate() {
    let mut wal = WAL::new("wal.log".to_string(), Vec::new()).unwrap();
    assert!(wal.is_empty());
    let entries = vec![
        WALEntry::Insert { key: "a".to_string(), value: "1".to_string() },
        WALEntry::Delete { key: "a".to_string() },
        WALEntry::Insert { key: "b".to_string(), value: "2".to_string() },
    ];
    for e in &entries {
        wal.append(e).unwrap();
    }
    assert_eq!(wal.read_all().unwrap(), entries);
    assert_eq!(wal.file_path(), "wal.log");
    let bytes = wal.bytes().clone();
    assert_eq!(&bytes[..4], &[11, 0, 0, 0]);

    let reopened = WAL::new("wal.log".to_string(), bytes.clone()).unwrap();
    assert_eq!(reopened.read_all().unwrap(), entries);

    wal.truncate().unwrap();
    assert!(wal.is_empty());
    assert_eq!(wal.read_all().unwrap(), Vec::new());
}

#[test]
fn test_wal_partial_frame_is_end_of_log() {
    let mut wal = WAL::new("wal.log".to_string(), Vec::new()).unwrap();
    wal.append(&WALEntry::Insert { key: "a".to_string(), value: "1".to_string() }).unwrap();
    let whole = wal.bytes().clone();
    wal.append(&WALEntry::Insert { key: "b".to_string(), value: "2".to_string() }).unwrap();
    let both = wal.bytes().clone();
    for cut in whole.len()..both.len() {
        let torn = WAL::new("wal.log".to_string(), both[..cut].to_vec()).unwrap();
        assert_eq!(
            torn.read_all().unwrap(),
            vec![WALEntry::Insert { key: "a".to_string(), value: "1".to_string() }]
        );
        // what the torn write left is dropped, so that the next append is read again
        assert_eq!(torn.bytes(), &whole);
    }
}

#[test]
fn test_wal_corrupt_frame() {
    let bytes = vec![2, 0, 0, 0, 9, 9];
    let wal = WAL::new("wal.log".to_string(), bytes).unwrap();
    assert!(matches!(wal.read_all(), Err(DbError::Corrupt(_))));
}

#[test]
fn test_table_names() {
    assert_eq!(naming::flush_name(0), "sstable_000000.sst");
    assert_eq!(naming::flush_name(42), "sstable_000042.sst");
    assert_eq!(naming::flush_name(1234567), "sstable_1234567.sst");
    assert_eq!(naming::level_name(1, 7), "sstable_L01_000007.sst");
    assert_eq!(naming::level_name(123, 7), "sstable_L123_000007.sst");
    assert_eq!(naming::flush_name(u64::MAX), "sstable_18446744073709551615.sst");

    assert_eq!(naming::parse_name("sstable_000042.sst"), Some((0, 42)));
    assert_eq!(naming::parse_name("sstable_L01_000007.sst"), Some((1, 7)));
    assert_eq!(naming::parse_name("sstable_L12_1234567.sst"), Some((12, 1234567)));
    assert_eq!(naming::parse_name(&naming::flush_name(u64::MAX)), Some((0, u64::MAX)));
    assert_eq!(naming::parse_name("sstable_18446744073709551616.sst"), None);
    assert_eq!(naming::parse_name("sstable_.sst"), None);
    assert_eq!(naming::parse_name("sstable_L_000001.sst"), None);
    assert_eq!(naming::parse_name("sstable_L01_.sst"), None);
    assert_eq!(naming::parse_name("sstable_00a001.sst"), None);
    assert_eq!(naming::parse_name("table_000001.sst"), None);
    assert_eq!(naming::parse_name("sstable_000001.txt"), None);
    assert_eq!(naming::parse_name("sstable_000001_compacted.sst"), None);
    assert!(naming::has_table_suffix("x.sst"));
    assert!(!naming::has_table_suffix("wal.log"));
}

#[test]
fn test_open_takes_the_level_from_the_name() {
    let records = data(&[("a", Some("1"))]);
    let bytes = SSTable::create("any.sst", &records, 5).unwrap().to_bytes();
    assert_eq!(SSTable::open("sstable_L03_000007.sst", &bytes).unwrap().level(), 3);
    assert_eq!(SSTable::open("sstable_000007.sst", &bytes).unwrap().level(), 0);
    assert_eq!(SSTable::open("any.sst", &bytes).unwrap().level(), 0);
    assert_eq!(SSTable::open("sstable_L03_000007.sst", &bytes).unwrap().scan().unwrap(), records);
    assert!(matches!(SSTable::open("sstable_000007.sst", &[9]), Err(DbError::Corrupt(_))));
    let table = SSTable::from_run("x.sst".to_string(), records.clone(), 2).with_level(4);
    assert_eq!(table.level(), 4);
    assert_eq!(table.records(), &records);
}
