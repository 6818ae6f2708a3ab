use rust_solo_all_db::engine::{LSMConfig, LSMTree};
use rust_solo_all_db::query::{QueryExecutor, QueryResult, SQLParser};
use rust_solo_all_db::{Record, Value};

fn config(limit: usize) -> LSMConfig {
    LSMConfig {
        memtable_size_limit: limit,
        data_dir: "db".to_string(),
        background_compaction: false,
        background_compaction_interval: 10_000,
        enable_wal: true,
        l0_file_limit: 4,
        level_size_multiplier: 10,
        max_sst_bytes: 64 * 1024 * 1024,
    }
}

fn open(limit: usize) -> LSMTree {
    LSMTree::with_config(config(limit), &Vec::new(), None).unwrap()
}

fn all_records(lsm: &LSMTree) -> Vec<Record> {
    lsm.level_manager().get_all_sstables().iter().flat_map(|t| t.scan().unwrap()).collect()
}

#[test]
fn test_put_and_get_in_an_empty_store() {
    let mut lsm = open(1000);
    lsm.insert("a".to_string(), "1".to_string()).unwrap();
    lsm.insert("b".to_string(), "2".to_string()).unwrap();
    assert_eq!(lsm.get("a").unwrap(), Some("1".to_string()));
    assert_eq!(lsm.get("c").unwrap(), None);
}

#[test]
fn test_flush_at_the_size_limit() {
    let mut lsm = open(2);
    lsm.insert("k1".to_string(), "v1".to_string()).unwrap();
    lsm.insert("k2".to_string(), "v2".to_string()).unwrap();
    lsm.insert("k3".to_string(), "v3".to_string()).unwrap();

    assert_eq!(lsm.level_manager().get_level_count(0), 1);
    assert_eq!(lsm.stats().sstable_count, 1);
    assert_eq!(
        all_records(&lsm),
        vec![
            Record { key: "k1".to_string(), value: Value::Data("v1".to_string()) },
            Record { key: "k2".to_string(), value: Value::Data("v2".to_string()) },
        ]
    );
    assert_eq!(lsm.memtable_size(), 1);
    assert_eq!(lsm.stats().memtable_entries, 1);
    assert_eq!(lsm.get("k3").unwrap(), Some("v3".to_string()));
}

#[test]
fn test_reopen_after_crash_recovers_the_log() {
    let mut lsm = open(2);
    lsm.insert("k1".to_string(), "v1".to_string()).unwrap();
    lsm.insert("k2".to_string(), "v2".to_string()).unwrap();
    lsm.insert("k3".to_string(), "v3".to_string()).unwrap();
    // no flush and no close: the directory is what a crash would leave
    let files = lsm.table_files();
    let wal = lsm.wal_bytes().cloned();

    let reopened = LSMTree::with_config(config(2), &files, wal).unwrap();
    assert_eq!(reopened.get("k3").unwrap(), Some("v3".to_string()));
    assert_eq!(reopened.get("k1").unwrap(), Some("v1".to_string()));
    assert_eq!(reopened.get("k2").unwrap(), Some("v2".to_string()));
}

#[test]
fn test_thousand_keys_with_compaction() {
    let mut lsm = open(50);
    for i in 0..1000 {
        lsm.insert(format!("key{:04}", i), format!("value{}", i)).unwrap();
        // what the worker does on a signal
        while lsm.maybe_compact().unwrap() {}
    }
    assert!(lsm.level_manager().get_level_count(0) <= 4);
    for i in 0..1000 {
        assert_eq!(lsm.get(&format!("key{:04}", i)).unwrap(), Some(format!("value{}", i)));
    }
}

#[test]
fn test_compaction_to_the_bottom_drops_deleted_keys() {
    let mut lsm = open(1000);
    lsm.insert("x".to_string(), "1".to_string()).unwrap();
    lsm.delete("x").unwrap();
    lsm.insert("y".to_string(), "2".to_string()).unwrap();
    lsm.compact().unwrap();
    let records = all_records(&lsm);
    assert!(records.iter().all(|r| r.key != "x"));
    assert_eq!(records.len(), 1);
    assert_eq!(lsm.get("x").unwrap(), None);
    assert_eq!(lsm.level_manager().get_level_count(0), 0);
}

#[test]
fn test_newer_flush_wins_before_and_after_compaction() {
    let mut lsm = open(1000);
    lsm.insert("k".to_string(), "1".to_string()).unwrap();
    lsm.flush().unwrap();
    lsm.insert("k".to_string(), "2".to_string()).unwrap();
    lsm.flush().unwrap();
    assert_eq!(lsm.get("k").unwrap(), Some("2".to_string()));
    lsm.compact().unwrap();
    assert_eq!(lsm.get("k").unwrap(), Some("2".to_string()));
    assert_eq!(all_records(&lsm).len(), 1);
}

#[test]
fn test_round_trip_laws_on_values() {
    let mut lsm = open(3);
    // put; get
    lsm.insert("k".to_string(), "v".to_string()).unwrap();
    assert_eq!(lsm.get("k").unwrap(), Some("v".to_string()));
    // put; put; get
    lsm.insert("k".to_string(), "v2".to_string()).unwrap();
    assert_eq!(lsm.get("k").unwrap(), Some("v2".to_string()));
    // put; delete; get
    lsm.delete("k").unwrap();
    assert_eq!(lsm.get("k").unwrap(), None);
    // delete; delete; get
    assert_eq!(lsm.delete("k"), Ok(true));
    assert_eq!(lsm.get("k").unwrap(), None);
    assert_eq!(lsm.delete("never-there"), Ok(true));
    // the same through flushes and compactions
    for i in 0..20 {
        lsm.insert(format!("a{}", i), format!("{}", i)).unwrap();
        if i % 3 == 0 {
            lsm.delete(&format!("a{}", i)).unwrap();
        }
    }
    lsm.compact().unwrap();
    for i in 0..20 {
        let expected = if i % 3 == 0 { None } else { Some(format!("{}", i)) };
        assert_eq!(lsm.get(&format!("a{}", i)).unwrap(), expected);
    }
    assert_eq!(lsm.get("k").unwrap(), None);
}

#[test]
fn test_levels_below_zero_do_not_overlap() {
    let mut cfg = config(4);
    cfg.max_sst_bytes = 40;
    cfg.l0_file_limit = 2;
    let mut lsm = LSMTree::with_config(cfg, &Vec::new(), None).unwrap();
    for round in 0..5 {
        for i in 0..40 {
            lsm.insert(format!("key{:03}", (i * 7 + round * 3) % 50), format!("r{}", round)).unwrap();
            while lsm.maybe_compact().unwrap() {}
        }
    }
    let manager = lsm.level_manager();
    assert!(manager.get_max_level() >= 1);
    for level in 1..=manager.get_max_level() {
        let tables = manager.get_sstables_at_level(level);
        for pair in tables.windows(2) {
            assert!(pair[0].max_key() < pair[1].min_key());
        }
        for t in &tables {
            // the filter reports every key of its table
            for r in t.scan().unwrap() {
                assert!(t.might_contain(&r.key));
            }
        }
    }
}

#[test]
fn test_insert_compact_query_verify() {
    let mut lsm_tree = open(1000);

    for i in 0..1500 {
        let key = format!("key{:04}", i);
        let value = format!("value{:04}", i);
        lsm_tree.insert(key, value).expect("Failed to insert");
    }

    lsm_tree.compact().expect("Failed to compact");

    for i in 0..1500 {
        let key = format!("key{:04}", i);
        let expected_value = format!("value{:04}", i);
        let actual_value = lsm_tree.get(&key).expect("Failed to get value");
        assert_eq!(actual_value, Some(expected_value));
    }

    let mut executor = QueryExecutor::new(&mut lsm_tree);
    let mut parser = SQLParser::new("SELECT * FROM table WHERE key = 'key0500'");
    let statement = parser.parse().expect("Failed to parse");
    let result = executor.execute(statement).expect("Failed to execute");

    match result {
        QueryResult::Select(records) => {
            assert_eq!(records.len(), 1);
            let value = records[0].iter().find(|field| field.0 == "value").map(|field| &field.1);
            assert_eq!(value.unwrap(), "value0500");
        }
        _ => panic!("Expected Select result"),
    }
}

#[test]
fn test_insert_throughput() {
    let mut lsm_tree = open(1000);
    let test_count = 10000;
    let start = std::time::Instant::now();
    for i in 0..test_count {
        let key = format!("perf_key_{:06}", i);
        let value = format!("perf_value_{:06}", i);
        lsm_tree.insert(key, value).expect("Failed to insert");
    }
    let duration = start.elapsed();
    let throughput = test_count as f64 / duration.as_secs_f64();
    assert!(throughput > 1000.0, "Insert throughput too low: {:.2} records/second", throughput);
    for i in (0..test_count).step_by(1000) {
        let key = format!("perf_key_{:06}", i);
        let expected_value = format!("perf_value_{:06}", i);
        let actual_value = lsm_tree.get(&key).expect("Failed to get value");
        assert_eq!(actual_value, Some(expected_value));
    }
}

#[test]
fn test_compaction_performance() {
    let mut lsm_tree = open(1000);
    let insert_count = 5000;
    for i in 0..insert_count {
        let key = format!("compact_key_{:06}", i);
        let value = format!("compact_value_{:06}", i);
        lsm_tree.insert(key, value).expect("Failed to insert");
    }
    let start = std::time::Instant::now();
    lsm_tree.compact().expect("Failed to compact");
    let compaction_duration = start.elapsed();
    assert!(
        compaction_duration < std::time::Duration::from_secs(5),
        "Compaction too slow: {:?}",
        compaction_duration
    );
    let sample_size = 100;
    for i in (0..insert_count).step_by(insert_count / sample_size) {
        let key = format!("compact_key_{:06}", i);
        let expected_value = format!("compact_value_{:06}", i);
        let actual_value = lsm_tree.get(&key).expect("Failed to get value");
        assert_eq!(actual_value, Some(expected_value));
    }
}
