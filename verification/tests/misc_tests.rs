use rust_solo_all_db::args::MaintenanceOps;
use rust_solo_all_db::config::DatabaseConfig;
use rust_solo_all_db::keys::{compare_keys, KeyOrder};
use rust_solo_all_db::metrics::PerformanceMetrics;
use rust_solo_all_db::{Cli, Commands};

#[test]
fn test_key_order_is_byte_order() {
    assert_eq!(compare_keys("a", "b"), KeyOrder::Less);
    assert_eq!(compare_keys("b", "a"), KeyOrder::Greater);
    assert_eq!(compare_keys("a", "a"), KeyOrder::Equal);
    assert_eq!(compare_keys("", ""), KeyOrder::Equal);
    assert_eq!(compare_keys("", "a"), KeyOrder::Less);
    assert_eq!(compare_keys("ab", "abc"), KeyOrder::Less);
    assert_eq!(compare_keys("abc", "ab"), KeyOrder::Greater);
    assert_eq!(compare_keys("Z", "a"), KeyOrder::Less);
    assert_eq!(compare_keys("z", "é"), KeyOrder::Less);
    assert_eq!(compare_keys("\u{ffff}", "\u{10000}"), KeyOrder::Less);
    for (a, b) in [("key10", "key9"), ("é", "e\u{301}"), ("x", "x\0")] {
        let expected = match a.cmp(b) {
            std::cmp::Ordering::Less => KeyOrder::Less,
            std::cmp::Ordering::Equal => KeyOrder::Equal,
            std::cmp::Ordering::Greater => KeyOrder::Greater,
        };
        assert_eq!(compare_keys(a, b), expected);
    }
}

#[test]
fn test_metrics() {
    let mut metrics = PerformanceMetrics::new();
    metrics.record_operation("insert", 100);
    metrics.record_operation("insert", 300);
    metrics.record_operation("query", 50);
    metrics.update_memory_usage(4096);
    let stats = metrics.get_stats();
    assert_eq!(stats.memory_usage_bytes, 4096);
    assert_eq!(stats.operation_stats.len(), 2);
    let insert = stats.operation_stats.iter().find(|s| s.name == "insert").unwrap();
    assert_eq!(insert.count, 2);
    assert_eq!(insert.total_duration, 400);
    assert_eq!(insert.average_duration, 200);
    let query = stats.operation_stats.iter().find(|s| s.name == "query").unwrap();
    assert_eq!(query.count, 1);
    assert_eq!(query.total_duration, 50);
    assert_eq!(query.average_duration, 50);
}

#[test]
fn test_database_config() {
    let config = DatabaseConfig::default();
    assert_eq!(config.storage.data_dir, "data");
    assert_eq!(config.storage.memtable_size_limit, 1000);
    assert!(config.storage.enable_wal);
    assert!(!config.storage.background_compaction);
    assert_eq!(config.storage.compaction_interval_secs, 60);
    assert_eq!(config.etl.batch_size, 1000);
    assert_eq!(config.etl.parallel_threads, 4);
    assert_eq!(config.etl.delimiter, ',');
    assert!(config.etl.hash_headers);
    assert!(config.query.enable_query_cache);
    assert_eq!(config.query.max_result_size, 10000);
    assert_eq!(config.query.query_timeout_secs, 30);
    assert_eq!(config.logging.level, "info");
    assert!(!config.logging.enable_performance_metrics);
    assert_eq!(config.logging.log_file, None);

    let lsm = config.to_lsm_config();
    assert_eq!(lsm.memtable_size_limit, 1000);
    assert_eq!(lsm.data_dir, "data");
    assert!(!lsm.background_compaction);
    assert_eq!(lsm.background_compaction_interval, 60_000);
    assert!(lsm.enable_wal);
}

#[test]
fn test_command_line_types() {
    let cli = Cli {
        command: Commands::Maintenance { operation: MaintenanceOps::CompactAll },
        config: "db.yaml".to_string(),
        verbose: false,
    };
    assert!(matches!(cli.command, Commands::Maintenance { operation: MaintenanceOps::CompactAll }));
    assert_ne!(MaintenanceOps::Vacuum, MaintenanceOps::Verify);
}
