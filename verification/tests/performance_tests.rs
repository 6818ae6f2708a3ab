use rust_solo_all_db::engine::{LSMConfig, LSMTree};
use rust_solo_all_db::etl::ETLLoader;
use rust_solo_all_db::query::{QueryExecutor, QueryResult, SQLParser};
use std::time::Duration;

fn timed_lsm() -> LSMTree {
    let config = LSMConfig {
        memtable_size_limit: 1000,
        data_dir: "db".to_string(),
        background_compaction: false,
        background_compaction_interval: 10_000,
        enable_wal: true,
        l0_file_limit: 4,
        level_size_multiplier: 10,
        max_sst_bytes: 64 * 1024 * 1024,
    };
    LSMTree::with_config(config, &Vec::new(), None).expect("Failed to create LSM tree")
}

#[test]
fn test_query_latency() {
    let mut lsm_tree = timed_lsm();
    for i in 0..1000 {
        let key = format!("latency_key_{:04}", i);
        let value = format!("latency_value_{:04}", i);
        lsm_tree.insert(key, value).expect("Failed to insert");
    }

    let mut executor = QueryExecutor::new(&mut lsm_tree);
    let mut total_duration = Duration::new(0, 0);
    let query_count = 100;

    for i in 0..query_count {
        let key = format!("latency_key_{:04}", i % 1000);
        let sql = format!("SELECT * FROM table WHERE key = '{}'", key);

        let start = std::time::Instant::now();
        let mut parser = SQLParser::new(&sql);
        let statement = parser.parse().expect("Failed to parse");
        let result = executor.execute(statement).expect("Failed to execute");
        total_duration += start.elapsed();

        match result {
            QueryResult::Select(records) => {
                assert_eq!(records.len(), 1);
            }
            _ => panic!("Expected Select result"),
        }
    }

    let avg_latency = total_duration / query_count;
    println!("Average query latency: {:?}", avg_latency);
    assert!(avg_latency < Duration::from_millis(10), "Query latency too high: {:?}", avg_latency);
}

#[test]
fn test_memory_usage_under_load() {
    let mut lsm_tree = timed_lsm();
    let initial_memory = std::mem::size_of::<LSMTree>();
    let batch_size = 1000;
    let num_batches = 10;

    for batch in 0..num_batches {
        for i in 0..batch_size {
            let key = format!("mem_key_{}_{:04}", batch, i);
            let value = format!("mem_value_{}_{:04}", batch, i);
            lsm_tree.insert(key, value).expect("Failed to insert");
        }
        let current_memory = std::mem::size_of::<LSMTree>();
        println!("Batch {}: Memory usage: {} bytes", batch, current_memory);
        assert!(
            current_memory < initial_memory + (batch + 1) * batch_size * 1000,
            "Memory usage growing too fast"
        );
    }

    lsm_tree.compact().expect("Failed to compact");

    for batch in 0..num_batches {
        for i in (0..batch_size).step_by(100) {
            let key = format!("mem_key_{}_{:04}", batch, i);
            let expected_value = format!("mem_value_{}_{:04}", batch, i);
            let actual_value = lsm_tree.get(&key).expect("Failed to get value");
            assert_eq!(actual_value, Some(expected_value));
        }
    }
}

#[test]
fn test_csv_loading_performance() {
    let mut lsm_tree = timed_lsm();
    let record_count = 5000;
    let mut csv = String::from("key,value\n");
    for i in 0..record_count {
        csv.push_str(&format!("csv_key_{:06},csv_value_{:06}\n", i, i));
    }

    let loader = ETLLoader::new();
    let start = std::time::Instant::now();
    let count = loader.load_csv(csv.as_bytes(), &mut lsm_tree, 0, 1).expect("Failed to load CSV");
    let load_duration = start.elapsed();

    assert_eq!(count, record_count);

    let load_throughput = record_count as f64 / load_duration.as_secs_f64();
    println!("CSV loading throughput: {:.2} records/second", load_throughput);
    assert!(load_throughput > 500.0, "CSV loading too slow: {:.2} records/second", load_throughput);

    let sample_size = 100;
    for i in (0..record_count).step_by(record_count / sample_size) {
        let key = format!("csv_key_{:06}", i);
        let expected_value = format!("csv_value_{:06}", i);
        let actual_value = lsm_tree.get(&key).expect("Failed to get value");
        assert_eq!(actual_value, Some(expected_value));
    }
}
