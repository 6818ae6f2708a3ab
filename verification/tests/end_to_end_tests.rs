use rust_solo_all_db::engine::{LSMConfig, LSMTree};
use rust_solo_all_db::etl::ETLLoader;
use rust_solo_all_db::query::{QueryExecutor, QueryResult, SQLParser};

fn test_config(limit: usize) -> LSMConfig {
    LSMConfig {
        memtable_size_limit: limit,
        data_dir: "db".to_string(),
        background_compaction: false,
        background_compaction_interval: 10_000,
        enable_wal: true,
        l0_file_limit: 4,
        level_size_multiplier: 10,
        max_sst_bytes: 64 * 1024 * 1024,
    }
}

fn create_test_lsm() -> LSMTree {
    LSMTree::with_config(test_config(1000), &Vec::new(), None).expect("Failed to create LSM tree")
}

fn create_test_csv(data: &[(&str, &str)]) -> String {
    let mut csv = String::from("key,value\n");
    for (key, value) in data {
        csv.push_str(&format!("{},{}\n", key, value));
    }
    csv
}

fn get<'a>(record: &'a Vec<(String, String)>, name: &str) -> Option<&'a String> {
    record.iter().find(|f| f.0 == name).map(|f| &f.1)
}

#[test]
fn test_csv_load_query_verify_results() {
    let mut lsm_tree = create_test_lsm();

    let test_data = vec![("user1", "Alice"), ("user2", "Bob"), ("user3", "Charlie"), ("user4", "Diana")];
    let csv = create_test_csv(&test_data);

    let loader = ETLLoader::new();
    let count = loader.load_csv(csv.as_bytes(), &mut lsm_tree, 0, 1).expect("Failed to load CSV");

    assert_eq!(count, 4);

    let mut executor = QueryExecutor::new(&mut lsm_tree);

    let mut parser = SQLParser::new("SELECT * FROM table WHERE key = 'user1'");
    let statement = parser.parse().expect("Failed to parse SELECT");
    let result = executor.execute(statement).expect("Failed to execute SELECT");

    match result {
        QueryResult::Select(records) => {
            assert_eq!(records.len(), 1);
            assert_eq!(get(&records[0], "key").unwrap(), "user1");
            assert_eq!(get(&records[0], "value").unwrap(), "Alice");
        }
        _ => panic!("Expected Select result"),
    }

    let mut parser = SQLParser::new("INSERT INTO table (key, value) VALUES ('user5', 'Eve')");
    let statement = parser.parse().expect("Failed to parse INSERT");
    let result = executor.execute(statement).expect("Failed to execute INSERT");

    match result {
        QueryResult::Insert(count) => assert_eq!(count, 1),
        _ => panic!("Expected Insert result"),
    }

    drop(executor);

    assert_eq!(lsm_tree.get("user5").unwrap(), Some("Eve".to_string()));

    let mut executor = QueryExecutor::new(&mut lsm_tree);
    let mut parser = SQLParser::new("DELETE FROM table WHERE key = 'user2'");
    let statement = parser.parse().expect("Failed to parse DELETE");
    let result = executor.execute(statement).expect("Failed to execute DELETE");

    match result {
        QueryResult::Delete(count) => assert_eq!(count, 1),
        _ => panic!("Expected Delete result"),
    }

    drop(executor);

    assert_eq!(lsm_tree.get("user2").unwrap(), None);
}

#[test]
fn test_wal_recovery_query_verify() {
    let config = test_config(100);
    let files;
    let wal;
    {
        let mut lsm_tree =
            LSMTree::with_config(config.clone(), &Vec::new(), None).expect("Failed to create LSM tree");

        for i in 0..50 {
            let key = format!("recovery_key{}", i);
            let value = format!("recovery_value{}", i);
            lsm_tree.insert(key, value).expect("Failed to insert");
        }
        files = lsm_tree.table_files();
        wal = lsm_tree.wal_bytes().cloned();
    }

    let mut recovered_lsm = LSMTree::with_config(config, &files, wal).expect("Failed to recover LSM tree");

    for i in 0..50 {
        let key = format!("recovery_key{}", i);
        let expected_value = format!("recovery_value{}", i);
        let actual_value = recovered_lsm.get(&key).expect("Failed to get recovered value");
        assert_eq!(actual_value, Some(expected_value));
    }

    let mut executor = QueryExecutor::new(&mut recovered_lsm);
    let mut parser = SQLParser::new("SELECT * FROM table WHERE key = 'recovery_key25'");
    let statement = parser.parse().expect("Failed to parse");
    let result = executor.execute(statement).expect("Failed to execute");

    match result {
        QueryResult::Select(records) => {
            assert_eq!(records.len(), 1);
            assert_eq!(get(&records[0], "value").unwrap(), "recovery_value25");
        }
        _ => panic!("Expected Select result"),
    }
}

#[test]
fn test_error_recovery_csv_loading() {
    let mut lsm_tree = create_test_lsm();

    let csv = "key,value\nkey1,value1\nkey2\nkey3,value3\nkey4,\"value with, comma\"\n";

    let loader = ETLLoader::new().with_recovery_mode(true);
    let result = loader
        .load_csv_with_recovery(csv.as_bytes(), &mut lsm_tree, 0, 1, true)
        .expect("Failed to load CSV with recovery");

    assert_eq!(result.successful_inserts, 3);
    assert_eq!(result.errors.len(), 1);
    assert!(result.successful_inserts as f64 / result.total_rows as f64 > 0.7);

    let mut executor = QueryExecutor::new(&mut lsm_tree);
    let mut parser = SQLParser::new("SELECT * FROM table WHERE key = 'key1'");
    let statement = parser.parse().expect("Failed to parse");
    let result = executor.execute(statement).expect("Failed to execute");

    match result {
        QueryResult::Select(records) => {
            assert_eq!(records.len(), 1);
            assert_eq!(get(&records[0], "value").unwrap(), "value1");
        }
        _ => panic!("Expected Select result"),
    }
}
