use rust_solo_all_db::engine::{LSMConfig, LSMTree};
use rust_solo_all_db::query::{QueryExecutor, QueryResult, SQLParser};

fn stress_lsm() -> LSMTree {
    let config = LSMConfig {
        memtable_size_limit: 1000,
        data_dir: "db".to_string(),
        background_compaction: false,
        background_compaction_interval: 10_000,
        enable_wal: true,
        l0_file_limit: 4,
        level_size_multiplier: 10,
        max_sst_bytes: 64 * 1024 * 1024,
    };
    LSMTree::with_config(config, &Vec::new(), None).expect("Failed to create LSM tree")
}

#[test]
fn test_large_dataset_operations() {
    let mut lsm_tree = stress_lsm();
    let large_count = 100_000;

    let start = std::time::Instant::now();
    for i in 0..large_count {
        let key = format!("large_key_{:08}", i);
        let value = format!("large_value_{:08}_{}", i, "x".repeat(50));
        lsm_tree.insert(key, value).expect("Failed to insert");
    }
    let insert_duration = start.elapsed();
    println!("Large dataset insertion took: {:?}", insert_duration);

    let start = std::time::Instant::now();
    lsm_tree.compact().expect("Failed to compact large dataset");
    let compaction_duration = start.elapsed();
    println!("Large dataset compaction took: {:?}", compaction_duration);

    let sample_size = 1000;
    let mut verified = 0;
    for i in (0..large_count).step_by(large_count / sample_size) {
        let key = format!("large_key_{:08}", i);
        let expected_value = format!("large_value_{:08}_{}", i, "x".repeat(50));
        let actual_value = lsm_tree.get(&key).expect("Failed to get value");
        assert_eq!(actual_value, Some(expected_value));
        verified += 1;
    }
    assert_eq!(verified, 1000);

    let query_key = format!("large_key_{:08}", large_count / 2);
    let sql = format!("SELECT * FROM table WHERE key = '{}'", query_key);
    let mut executor = QueryExecutor::new(&mut lsm_tree);
    let start = std::time::Instant::now();
    let mut parser = SQLParser::new(&sql);
    let statement = parser.parse().expect("Failed to parse");
    let result = executor.execute(statement).expect("Failed to execute");
    let query_duration = start.elapsed();
    match result {
        QueryResult::Select(records) => {
            assert_eq!(records.len(), 1);
        }
        _ => panic!("Expected Select result"),
    }

    assert!(insert_duration < std::time::Duration::from_secs(120), "Large dataset insertion too slow");
    assert!(compaction_duration < std::time::Duration::from_secs(30), "Large dataset compaction too slow");
    assert!(query_duration < std::time::Duration::from_millis(100), "Query on large dataset too slow");
}

#[test]
fn test_memory_pressure_scenarios() {
    let mut lsm_tree = stress_lsm();
    let batch_size = 5000;
    let num_batches = 20;
    let large_value_size = 1000;

    for batch in 0..num_batches {
        for i in 0..batch_size {
            let key = format!("memory_pressure_{}_{:06}", batch, i);
            let value = format!("large_value_{}_{:06}_{}", batch, i, "z".repeat(large_value_size));
            lsm_tree.insert(key, value).expect("Failed to insert during memory pressure test");
        }
        if batch % 5 == 4 {
            lsm_tree.compact().expect("Failed to compact during memory pressure test");
        }
        let sample_key = format!("memory_pressure_{}_{:06}", batch, batch_size / 2);
        let result = lsm_tree.get(&sample_key).expect("Failed to get during memory pressure test");
        assert!(result.is_some(), "Data lost during memory pressure test");
    }

    let mut verified_count = 0;
    for batch in (0..num_batches).step_by(2) {
        for i in (0..batch_size).step_by(500) {
            let key = format!("memory_pressure_{}_{:06}", batch, i);
            let result = lsm_tree.get(&key).expect("Failed to get during final verification");
            if result.is_some() {
                verified_count += 1;
            }
        }
    }
    println!("Verified {} records after memory pressure test", verified_count);
    assert!(verified_count > 0, "No data survived memory pressure test");
    assert_eq!(verified_count, 100);
}

#[test]
fn test_long_running_stability() {
    let mut lsm_tree = stress_lsm();
    let duration = std::time::Duration::from_secs(5);
    let start_time = std::time::Instant::now();
    let mut operation_count: usize = 0;
    let mut error_count: usize = 0;

    while start_time.elapsed() < duration {
        let key = format!("stability_key_{:08}", operation_count);
        let value = format!("stability_value_{:08}_{}", operation_count, operation_count % 1000);
        match operation_count % 10 {
            0..=5 => {
                if lsm_tree.insert(key, value).is_err() {
                    error_count += 1;
                }
            }
            6..=8 => {
                let read_key = format!("stability_key_{:08}", operation_count.saturating_sub(100));
                if lsm_tree.get(&read_key).is_err() {
                    error_count += 1;
                }
            }
            9 => {
                let delete_key = format!("stability_key_{:08}", operation_count.saturating_sub(200));
                if lsm_tree.delete(&delete_key).is_err() {
                    error_count += 1;
                }
            }
            _ => unreachable!(),
        }
        operation_count += 1;
        if operation_count % 1000 == 0 {
            if lsm_tree.compact().is_err() {
                error_count += 1;
            }
        }
    }

    let final_duration = start_time.elapsed();
    let ops_per_second = operation_count as f64 / final_duration.as_secs_f64();
    println!("  Total operations: {}", operation_count);
    println!("  Error count: {}", error_count);
    println!("  Operations per second: {:.2}", ops_per_second);

    assert!(operation_count > 1000, "Should have completed substantial number of operations");
    assert!(
        error_count < operation_count / 100,
        "Error rate too high: {} errors out of {} operations",
        error_count,
        operation_count
    );
    assert!(ops_per_second > 10.0, "Operations per second too low: {:.2}", ops_per_second);
}
