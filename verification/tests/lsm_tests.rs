use rust_solo_all_db::engine::{CompactionMessage, LSMConfig, LSMTree};
use rust_solo_all_db::DbError;

fn config(limit: usize, wal: bool) -> LSMConfig {
    LSMConfig {
        memtable_size_limit: limit,
        data_dir: "data".to_string(),
        background_compaction: false,
        background_compaction_interval: 1000,
        enable_wal: wal,
        l0_file_limit: 4,
        level_size_multiplier: 10,
        max_sst_bytes: 64 * 1024 * 1024,
    }
}

// What the data directory holds while the tree is as it is.
fn directory(lsm: &LSMTree) -> (Vec<(String, Vec<u8>)>, Option<Vec<u8>>) {
    (lsm.table_files(), lsm.wal_bytes().cloned())
}

fn reopen(config: LSMConfig, dir: &(Vec<(String, Vec<u8>)>, Option<Vec<u8>>)) -> LSMTree {
    LSMTree::with_config(config, &dir.0, dir.1.clone()).unwrap()
}

#[test]
fn test_background_compaction() {
    let mut cfg = config(2, true);
    cfg.background_compaction = true;
    cfg.background_compaction_interval = 100;
    let mut lsm = LSMTree::with_config(cfg, &Vec::new(), None).unwrap();

    for i in 1..=10 {
        lsm.insert(format!("key{}", i), format!("value{}", i)).unwrap();
        // the worker takes the request that a flush leaves
        if lsm.take_compaction_request() {
            assert!(lsm.handle_message(Some(CompactionMessage::CheckCompaction)));
        }
    }
    // a tick without a message checks as well
    assert!(lsm.handle_message(None));
    assert!(!lsm.handle_message(Some(CompactionMessage::ShutDown)));

    let stats = lsm.stats();
    assert!(stats.sstable_count < 5);

    for i in 1..=10 {
        let key = format!("key{}", i);
        let expected = format!("value{}", i);
        match lsm.get(&key).unwrap() {
            Some(value) => assert_eq!(value, expected, "Data integrity check failed for {}", key),
            None => panic!("Key {} was lost during compaction!", key),
        }
    }
}

#[test]
fn test_background_compaction_disabled() {
    let mut lsm = LSMTree::with_config(config(2, true), &Vec::new(), None).unwrap();

    for i in 1..=6 {
        lsm.insert(format!("key{}", i), format!("value{}", i)).unwrap();
    }

    let stats = lsm.stats();
    assert!(stats.sstable_count >= 2, "Should have multiple SSTables when background compaction is disabled");
    assert!(!lsm.take_compaction_request());
}

#[test]
fn test_wal_recovery() {
    let cfg = config(10, true);
    let dir;
    {
        let mut lsm = LSMTree::with_config(cfg.clone(), &Vec::new(), None).unwrap();

        lsm.insert("key1".to_string(), "value1".to_string()).unwrap();
        lsm.insert("key2".to_string(), "value2".to_string()).unwrap();
        lsm.insert("key3".to_string(), "value3".to_string()).unwrap();

        lsm.delete("key2").unwrap();

        assert_eq!(lsm.get("key1").unwrap(), Some("value1".to_string()));
        assert_eq!(lsm.get("key2").unwrap(), None);
        assert_eq!(lsm.get("key3").unwrap(), Some("value3".to_string()));

        // no flush: the tree goes as in a crash, and the directory stays
        dir = directory(&lsm);
    }

    {
        let lsm = reopen(cfg.clone(), &dir);

        let stats_after_recovery = lsm.stats();

        assert_eq!(lsm.get("key1").unwrap(), Some("value1".to_string()), "key1 should be recovered from WAL");
        assert_eq!(lsm.get("key2").unwrap(), None, "key2 should remain deleted after recovery");
        assert_eq!(lsm.get("key3").unwrap(), Some("value3".to_string()), "key3 should be recovered from WAL");

        assert_eq!(stats_after_recovery.memtable_entries, 3);
        assert_eq!(stats_after_recovery.sstable_count, 0);
    }
}

#[test]
fn test_wal_disabled() {
    let cfg = config(10, false);
    let dir;
    {
        let mut lsm = LSMTree::with_config(cfg.clone(), &Vec::new(), None).unwrap();

        lsm.insert("key1".to_string(), "value1".to_string()).unwrap();
        lsm.insert("key2".to_string(), "value2".to_string()).unwrap();

        assert_eq!(lsm.get("key1").unwrap(), Some("value1".to_string()));
        assert_eq!(lsm.get("key2").unwrap(), Some("value2".to_string()));
        dir = directory(&lsm);
        assert_eq!(dir.1, None);
    }

    {
        let lsm = reopen(cfg.clone(), &dir);

        assert_eq!(lsm.get("key1").unwrap(), None, "key1 should be lost without WAL");
        assert_eq!(lsm.get("key2").unwrap(), None, "key2 should be lost without WAL");

        let stats = lsm.stats();
        assert_eq!(stats.memtable_entries, 0);
        assert_eq!(stats.sstable_count, 0);
    }
}

#[test]
fn test_wal_with_flush() {
    let cfg = config(2, true);
    let dir;
    {
        let mut lsm = LSMTree::with_config(cfg.clone(), &Vec::new(), None).unwrap();

        lsm.insert("key1".to_string(), "value1".to_string()).unwrap();
        lsm.insert("key2".to_string(), "value2".to_string()).unwrap();

        lsm.flush().unwrap();

        let stats = lsm.stats();

        assert!(stats.sstable_count >= 1);
        assert_eq!(stats.memtable_entries, 0);
        dir = directory(&lsm);
        assert_eq!(dir.1, Some(Vec::new()));
    }

    {
        let lsm = reopen(cfg.clone(), &dir);

        assert_eq!(lsm.get("key1").unwrap(), Some("value1".to_string()));
        assert_eq!(lsm.get("key2").unwrap(), Some("value2".to_string()));

        let stats = lsm.stats();
        assert!(stats.sstable_count >= 1);
        assert_eq!(stats.memtable_entries, 0);
    }
}

#[test]
fn test_leveled_compaction_integration() {
    let mut lsm = LSMTree::with_config(config(2, false), &Vec::new(), None).unwrap();

    for i in 1..=10 {
        lsm.insert(format!("key{:02}", i), format!("value{}", i)).unwrap();
    }

    assert!(lsm.level_manager().should_compact(0));
    assert_eq!(lsm.maybe_compact().unwrap(), true);
    assert_eq!(lsm.level_manager().get_level_count(0), 0);
    assert_eq!(lsm.maybe_compact().unwrap(), false);

    for i in 1..=10 {
        let key = format!("key{:02}", i);
        let expected = format!("value{}", i);
        assert_eq!(lsm.get(&key).unwrap(), Some(expected));
    }
}

#[test]
fn test_lsm_basic_operations() {
    let mut lsm = LSMTree::with_config(config(3, true), &Vec::new(), None).unwrap();

    lsm.insert("key1".to_string(), "value1".to_string()).unwrap();
    lsm.insert("key2".to_string(), "value2".to_string()).unwrap();

    assert_eq!(lsm.get("key1").unwrap(), Some("value1".to_string()));
    assert_eq!(lsm.get("key2").unwrap(), Some("value2".to_string()));

    let stats = lsm.stats();
    assert_eq!(stats.memtable_entries, 2);
    assert_eq!(stats.sstable_count, 0);
    assert_eq!(stats.next_flush_at, 3);
    assert_eq!(lsm.memtable_size(), 2);
    assert_eq!(lsm.get_data_dir(), "data");
}

#[test]
fn test_tombstone_deletes() {
    let mut lsm = LSMTree::with_config(config(2, true), &Vec::new(), None).unwrap();

    lsm.insert("key1".to_string(), "value1".to_string()).unwrap();
    lsm.insert("key2".to_string(), "value2".to_string()).unwrap();
    lsm.insert("key3".to_string(), "value3".to_string()).unwrap();

    assert_eq!(lsm.get("key1").unwrap(), Some("value1".to_string()));
    assert!(lsm.delete("key1").unwrap());
    assert_eq!(lsm.get("key1").unwrap(), None);

    lsm.compact().unwrap();

    assert_eq!(lsm.get("key1").unwrap(), None);
    assert_eq!(lsm.get("key2").unwrap(), Some("value2".to_string()));
    assert_eq!(lsm.get("key3").unwrap(), Some("value3".to_string()));
}

#[test]
fn test_tombstone_in_newer_table_hides_older_data() {
    let mut lsm = LSMTree::with_config(config(1, true), &Vec::new(), None).unwrap();
    lsm.insert("k".to_string(), "v".to_string()).unwrap();
    lsm.delete("k").unwrap();
    // both the payload and the deletion stand in tables of level 0
    assert_eq!(lsm.stats().sstable_count, 2);
    assert_eq!(lsm.stats().memtable_entries, 0);
    assert_eq!(lsm.get("k").unwrap(), None);
}

#[test]
fn test_empty_key_is_refused() {
    let mut lsm = LSMTree::with_config(config(10, true), &Vec::new(), None).unwrap();
    assert!(matches!(lsm.insert(String::new(), "v".to_string()), Err(DbError::InvalidArgument(_))));
    assert!(matches!(lsm.delete(""), Err(DbError::InvalidArgument(_))));
    assert_eq!(lsm.stats().memtable_entries, 0);
    assert_eq!(lsm.wal_bytes(), Some(&Vec::new()));
    assert_eq!(lsm.get("").unwrap(), None);
}

#[test]
fn test_flush_of_empty_memtable_is_a_no_op() {
    let mut lsm = LSMTree::with_config(config(10, true), &Vec::new(), None).unwrap();
    lsm.flush().unwrap();
    assert_eq!(lsm.stats().sstable_count, 0);
    lsm.insert("a".to_string(), "1".to_string()).unwrap();
    lsm.flush().unwrap();
    let once = directory(&lsm);
    lsm.flush().unwrap();
    assert_eq!(directory(&lsm), once);
    assert_eq!(lsm.stats().sstable_count, 1);
}

#[test]
fn test_open_refuses_bad_directories() {
    let cfg = config(10, true);
    // a table file whose bytes are no records
    let bad = vec![("sstable_000001.sst".to_string(), vec![1u8, 2, 3])];
    assert!(matches!(LSMTree::with_config(cfg.clone(), &bad, None), Err(DbError::Corrupt(_))));
    // a table file whose name spells no number
    let named = vec![("table.sst".to_string(), Vec::new())];
    assert!(matches!(LSMTree::with_config(cfg.clone(), &named, None), Err(DbError::Corrupt(_))));
    // a log with a frame that is no entry
    assert!(matches!(
        LSMTree::with_config(cfg.clone(), &Vec::new(), Some(vec![1, 0, 0, 0, 9])),
        Err(DbError::Corrupt(_))
    ));
    // other files are passed over
    let other = vec![("notes.txt".to_string(), vec![1u8, 2, 3])];
    assert!(LSMTree::with_config(cfg.clone(), &other, None).is_ok());
    // no number is left behind the largest
    let last = vec![("sstable_18446744073709551615.sst".to_string(), Vec::new())];
    assert!(matches!(LSMTree::with_config(cfg.clone(), &last, None), Err(DbError::Corrupt(_))));
}

#[test]
fn test_open_refuses_overlapping_deep_tables() {
    let mut lsm = LSMTree::with_config(config(1, false), &Vec::new(), None).unwrap();
    lsm.insert("a".to_string(), "1".to_string()).unwrap();
    let bytes = lsm.table_files()[0].1.clone();
    let files = vec![
        ("sstable_L01_000001.sst".to_string(), bytes.clone()),
        ("sstable_L01_000002.sst".to_string(), bytes.clone()),
    ];
    assert!(matches!(LSMTree::with_config(config(1, false), &files, None), Err(DbError::Corrupt(_))));
    // at level 0 tables may overlap
    let files = vec![
        ("sstable_000001.sst".to_string(), bytes.clone()),
        ("sstable_000002.sst".to_string(), bytes),
    ];
    let reopened = LSMTree::with_config(config(1, false), &files, None).unwrap();
    assert_eq!(reopened.stats().sstable_count, 2);
}

#[test]
fn test_reopen_keeps_levels_and_order() {
    let cfg = config(2, true);
    let mut lsm = LSMTree::with_config(cfg.clone(), &Vec::new(), None).unwrap();
    for round in 0..3 {
        for i in 0..8 {
            lsm.insert(format!("key{}", i), format!("round{}-{}", round, i)).unwrap();
        }
        if round == 1 {
            lsm.compact().unwrap();
        }
    }
    lsm.delete("key3").unwrap();
    lsm.insert("last".to_string(), "one".to_string()).unwrap();
    let dir = directory(&lsm);
    // files in any order
    let mut shuffled = dir.clone();
    shuffled.0.reverse();
    for d in [dir, shuffled] {
        let reopened = reopen(cfg.clone(), &d);
        for i in 0..8 {
            assert_eq!(reopened.get(&format!("key{}", i)).unwrap(), lsm.get(&format!("key{}", i)).unwrap());
        }
        assert_eq!(reopened.get("key3").unwrap(), None);
        assert_eq!(reopened.get("last").unwrap(), Some("one".to_string()));
        assert_eq!(reopened.stats().sstable_count, lsm.stats().sstable_count);
        assert_eq!(reopened.stats().memtable_entries, lsm.stats().memtable_entries);
        let mut names: Vec<String> = reopened.table_files().into_iter().map(|f| f.0).collect();
        let mut before: Vec<String> = lsm.table_files().into_iter().map(|f| f.0).collect();
        assert_eq!(names, before);
        names.sort();
        before.sort();
        assert_eq!(names, before);
    }
}

#[test]
fn test_new_names_follow_the_largest_after_reopen() {
    let cfg = config(1, true);
    let mut lsm = LSMTree::with_config(cfg.clone(), &Vec::new(), None).unwrap();
    lsm.insert("a".to_string(), "1".to_string()).unwrap();
    lsm.insert("b".to_string(), "2".to_string()).unwrap();
    let names: Vec<String> = lsm.table_files().into_iter().map(|f| f.0).collect();
    assert_eq!(names, vec!["sstable_000001.sst", "sstable_000000.sst"]);
    let mut reopened = reopen(cfg, &directory(&lsm));
    reopened.insert("c".to_string(), "3".to_string()).unwrap();
    let names: Vec<String> = reopened.table_files().into_iter().map(|f| f.0).collect();
    assert_eq!(names, vec!["sstable_000002.sst", "sstable_000001.sst", "sstable_000000.sst"]);
}

#[test]
fn test_default_config_and_new() {
    let cfg = LSMConfig::default();
    assert_eq!(cfg.memtable_size_limit, 1000);
    assert_eq!(cfg.data_dir, "data");
    assert!(cfg.background_compaction);
    assert_eq!(cfg.background_compaction_interval, 10_000);
    assert!(cfg.enable_wal);
    assert_eq!(cfg.l0_file_limit, 4);
    assert_eq!(cfg.level_size_multiplier, 10);
    assert_eq!(cfg.max_sst_bytes, 64 * 1024 * 1024);
    let lsm = LSMTree::new().unwrap();
    assert_eq!(lsm.stats().next_flush_at, 1000);
    assert_eq!(lsm.config().memtable_size_limit, 1000);
}

#[test]
fn test_close_flushes() {
    let cfg = config(100, true);
    let mut lsm = LSMTree::with_config(cfg.clone(), &Vec::new(), None).unwrap();
    lsm.insert("a".to_string(), "1".to_string()).unwrap();
    lsm.delete("b").unwrap();
    lsm.close().unwrap();
    assert_eq!(lsm.stats().memtable_entries, 0);
    assert_eq!(lsm.wal_bytes(), Some(&Vec::new()));
    let reopened = reopen(cfg, &directory(&lsm));
    assert_eq!(reopened.get("a").unwrap(), Some("1".to_string()));
    assert_eq!(reopened.get("b").unwrap(), None);
}

#[test]
fn test_open_refuses_repeated_numbers() {
    let mut lsm = LSMTree::with_config(config(1, false), &Vec::new(), None).unwrap();
    lsm.insert("a".to_string(), "1".to_string()).unwrap();
    let bytes = lsm.table_files()[0].1.clone();
    // two names of level 0 that spell one number
    let files = vec![
        ("sstable_000001.sst".to_string(), bytes.clone()),
        ("sstable_0000001.sst".to_string(), bytes.clone()),
    ];
    assert!(matches!(LSMTree::with_config(config(1, false), &files, None), Err(DbError::Corrupt(_))));
    // a flushed table and a compacted table may carry one number
    let files = vec![
        ("sstable_000001.sst".to_string(), bytes.clone()),
        ("sstable_L01_000001.sst".to_string(), bytes),
    ];
    let reopened = LSMTree::with_config(config(1, false), &files, None).unwrap();
    assert_eq!(reopened.level_manager().get_level_count(0), 1);
    assert_eq!(reopened.level_manager().get_level_count(1), 1);
}

#[test]
fn test_tables_without_records_are_not_registered_at_open() {
    let files = vec![("sstable_000004.sst".to_string(), Vec::new())];
    let mut lsm = LSMTree::with_config(config(1, true), &files, None).unwrap();
    assert_eq!(lsm.stats().sstable_count, 0);
    // its number is not given out again
    lsm.insert("a".to_string(), "1".to_string()).unwrap();
    assert_eq!(lsm.table_files()[0].0, "sstable_000005.sst");
}

#[test]
fn test_open_refuses_levels_that_do_not_grow() {
    for multiplier in [0usize, 1] {
        let mut bad = LSMConfig::default();
        bad.level_size_multiplier = multiplier;
        assert!(matches!(
            LSMTree::with_config(bad.clone(), &Vec::new(), None),
            Err(DbError::InvalidArgument(_))
        ));
        assert!(matches!(LSMTree::open(bad, &Vec::new(), None, None), Err(DbError::InvalidArgument(_))));
    }
    let mut least = LSMConfig::default();
    least.level_size_multiplier = 2;
    assert!(LSMTree::with_config(least, &Vec::new(), None).is_ok());
}

#[test]
fn test_a_flush_asks_for_a_compaction_check_where_the_worker_is_on() {
    let mut cfg = config(2, true);
    cfg.background_compaction = true;
    let mut lsm = LSMTree::with_config(cfg, &Vec::new(), None).unwrap();
    assert!(!lsm.take_compaction_request());
    lsm.insert("a".to_string(), "1".to_string()).unwrap();
    assert!(!lsm.take_compaction_request());
    lsm.insert("b".to_string(), "2".to_string()).unwrap();
    // the second key filled the table in memory
    assert!(lsm.take_compaction_request());
    assert!(!lsm.take_compaction_request());
    lsm.flush().unwrap();
    // nothing was there to flush
    assert!(!lsm.take_compaction_request());
}

#[test]
fn test_a_check_compacts_the_first_level_that_is_due() {
    let mut lsm = LSMTree::with_config(config(1, true), &Vec::new(), None).unwrap();
    for i in 0..4 {
        lsm.insert(format!("k{}", i), format!("v{}", i)).unwrap();
    }
    assert_eq!(lsm.level_manager().get_level_count(0), 4);
    assert!(lsm.handle_message(Some(CompactionMessage::CheckCompaction)));
    assert_eq!(lsm.level_manager().get_level_count(0), 0);
    assert_eq!(lsm.level_manager().get_level_count(1), 1);
    assert_eq!(lsm.memtable_size(), 0);
    // nothing is due any more: a tick leaves the levels as they are
    let before = lsm.table_files();
    assert!(lsm.handle_message(None));
    assert_eq!(lsm.table_files(), before);
    // a shut-down does no work
    lsm.insert("z".to_string(), "1".to_string()).unwrap();
    for i in 4..7 {
        lsm.insert(format!("k{}", i), format!("v{}", i)).unwrap();
    }
    assert_eq!(lsm.level_manager().get_level_count(0), 4);
    assert!(!lsm.handle_message(Some(CompactionMessage::ShutDown)));
    assert_eq!(lsm.level_manager().get_level_count(0), 4);
    for i in 0..7 {
        assert_eq!(lsm.get(&format!("k{}", i)).unwrap(), Some(format!("v{}", i)));
    }
}

#[test]
fn test_numbers_are_fresh() {
    let mut lsm = LSMTree::with_config(config(2, true), &Vec::new(), None).unwrap();
    assert!(lsm.has_fresh_numbers());
    for i in 0..20 {
        lsm.insert(format!("k{:02}", i), "v".to_string()).unwrap();
    }
    lsm.compact().unwrap();
    assert!(lsm.has_fresh_numbers());
}

#[test]
fn test_compaction_of_a_shallow_tree_drops_every_deletion() {
    let mut lsm = LSMTree::with_config(config(2, true), &Vec::new(), None).unwrap();
    for i in 0..9 {
        lsm.insert(format!("k{}", i), "v".to_string()).unwrap();
    }
    for i in 0..9 {
        if i % 2 == 0 {
            lsm.delete(&format!("k{}", i)).unwrap();
        }
    }
    lsm.compact().unwrap();
    let tables = lsm.level_manager().get_all_sstables();
    assert!(!tables.is_empty());
    for table in tables {
        for record in table.scan().unwrap() {
            assert!(!record.value.is_tombstone());
        }
    }
    assert_eq!(lsm.get("k0").unwrap(), None);
    assert_eq!(lsm.get("k1").unwrap(), Some("v".to_string()));
}
