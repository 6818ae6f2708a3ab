use rust_solo_all_db::engine::{LSMConfig, LSMTree};
use rust_solo_all_db::etl::{CSVParser, CSVSchema, DataType, ETLLoader};
use rust_solo_all_db::{DbError, Value};

fn tree() -> LSMTree {
    let mut config = LSMConfig::default();
    config.enable_wal = false;
    config.memtable_size_limit = 10;
    LSMTree::with_config(config, &Vec::new(), None).unwrap()
}

// A tree without a log and without background work, which flushes at 100 keys.
fn loading_tree() -> LSMTree {
    let config = LSMConfig {
        memtable_size_limit: 100,
        data_dir: "db".to_string(),
        background_compaction: false,
        background_compaction_interval: 1000,
        enable_wal: false,
        l0_file_limit: 4,
        level_size_multiplier: 10,
        max_sst_bytes: 64 * 1024 * 1024,
    };
    LSMTree::with_config(config, &Vec::new(), None).unwrap()
}

#[test]
fn test_csv_loading() {
    let csv = "key,value\nkey1,value1\nkey2,value2\nkey3,value3\n";
    let mut lsm_tree = loading_tree();

    let loader = ETLLoader::new();
    let count = loader.load_csv(csv.as_bytes(), &mut lsm_tree, 0, 1).unwrap();

    assert_eq!(count, 3);

    assert_eq!(lsm_tree.get("key1").unwrap(), Some("value1".to_string()));
    assert_eq!(lsm_tree.get("key2").unwrap(), Some("value2".to_string()));
    assert_eq!(lsm_tree.get("key3").unwrap(), Some("value3".to_string()));
}

#[test]
fn test_csv_loading_no_headers() {
    let csv = "user1,data1\nuser2,data2\nuser3,data3\n";
    let mut lsm_tree = loading_tree();

    let loader = ETLLoader::new();
    let count = loader.load_csv_with_options(csv.as_bytes(), &mut lsm_tree, 0, 1, false).unwrap();

    assert_eq!(count, 3);

    assert_eq!(lsm_tree.get("user1").unwrap(), Some("data1".to_string()));
    assert_eq!(lsm_tree.get("user2").unwrap(), Some("data2".to_string()));
    assert_eq!(lsm_tree.get("user3").unwrap(), Some("data3".to_string()));
}

#[test]
fn test_csv_loading_different_columns() {
    let csv = "id,name,value,status\n1,Alice,apple,active\n2,Bob,banana,inactive\n3,Charlie,cherry,active\n";
    let mut lsm_tree = loading_tree();

    // columns 1 (name) and 2 (value)
    let loader = ETLLoader::new();
    let count = loader.load_csv(csv.as_bytes(), &mut lsm_tree, 1, 2).unwrap();

    assert_eq!(count, 3);

    assert_eq!(lsm_tree.get("Alice").unwrap(), Some("apple".to_string()));
    assert_eq!(lsm_tree.get("Bob").unwrap(), Some("banana".to_string()));
    assert_eq!(lsm_tree.get("Charlie").unwrap(), Some("cherry".to_string()));
}

#[test]
fn test_csv_loading_empty_file() {
    // only headers
    let csv = "key,value\n";
    let mut lsm_tree = loading_tree();

    let loader = ETLLoader::new();
    let count = loader.load_csv(csv.as_bytes(), &mut lsm_tree, 0, 1).unwrap();

    assert_eq!(count, 0);
}

#[test]
fn test_csv_loading_without_a_byte() {
    let mut lsm_tree = tree();
    let loader = ETLLoader::new();
    assert_eq!(loader.load_csv("".as_bytes(), &mut lsm_tree, 0, 1).unwrap(), 0);
}

#[test]
fn test_csv_loading_with_recovery_mode() {
    // the row of Bob lacks the age; the age of Diana is no number, and is loaded all the same
    let csv = "name,age\nAlice,25\nBob\nCharlie,30\nDiana,invalid_age\n";
    let mut lsm_tree = loading_tree();

    let loader = ETLLoader::new().with_recovery_mode(true);
    let result = loader.load_csv_with_recovery(csv.as_bytes(), &mut lsm_tree, 0, 1, true).unwrap();

    assert_eq!(result.successful_inserts, 3);
    assert_eq!(result.errors.len(), 1);
    assert!(result.successful_inserts as f64 / result.total_rows as f64 > 0.7);

    assert_eq!(lsm_tree.get("Alice").unwrap(), Some("25".to_string()));
    assert_eq!(lsm_tree.get("Charlie").unwrap(), Some("30".to_string()));
    assert_eq!(lsm_tree.get("Diana").unwrap(), Some("invalid_age".to_string()));

    assert_eq!(lsm_tree.get("Bob").unwrap(), None);
}

#[test]
fn test_recovery_notes_the_line_of_a_bad_row() {
    let csv = "key,value\nkey1,value1\nkey2\nkey3,value3\nkey4,\"value with, comma\"\n";
    let mut lsm_tree = tree();
    let loader = ETLLoader::new().with_recovery_mode(true);
    let result = loader.load_csv_with_recovery(csv.as_bytes(), &mut lsm_tree, 0, 1, true).unwrap();
    assert_eq!(result.total_rows, 4);
    assert_eq!(result.successful_inserts, 3);
    assert_eq!(result.errors.len(), 1);
    assert_eq!(result.errors[0].row_number, 3);
    assert_eq!(lsm_tree.get("key1").unwrap(), Some("value1".to_string()));
    assert_eq!(lsm_tree.get("key2").unwrap(), None);
    assert_eq!(lsm_tree.get("key4").unwrap(), Some("value with, comma".to_string()));
}

#[test]
fn test_delimiter_detection() {
    let csv = "name;age;city\nAlice;25;NYC\nBob;30;London\n";
    let _lsm_tree = loading_tree();

    let _loader = ETLLoader::new();
    let parser = CSVParser::new(0, 1).with_custom_delimiter(';');

    let records = parser.parse_records(csv.as_bytes()).unwrap();

    assert_eq!(records.len(), 2);
    assert_eq!(records[0].0, "Alice");
    assert_eq!(records[1].0, "Bob");
}

#[test]
fn test_csv_loading_stops_at_a_bad_row() {
    let csv = "key,value\nkey1,value1\nkey2\n";
    let mut lsm_tree = tree();
    let loader = ETLLoader::new();
    assert!(matches!(
        loader.load_csv(csv.as_bytes(), &mut lsm_tree, 0, 1),
        Err(DbError::InvalidOperation(_))
    ));
    assert_eq!(lsm_tree.get("key1").unwrap(), None);
    assert!(matches!(
        loader.load_csv("a,b\n1,2\n".as_bytes(), &mut lsm_tree, 0, 5),
        Err(DbError::InvalidOperation(_))
    ));
}

#[test]
fn test_batches() {
    let mut csv = String::from("key,value\n");
    for i in 0..25 {
        csv.push_str(&format!("k{:02},v{}\n", i, i));
    }
    // a key that comes twice in one batch is written once, with its last value
    csv.push_str("k24,again\n");
    let mut lsm_tree = tree();
    let loader = ETLLoader::with_config(7, 2);
    assert_eq!(loader.batch_size(), 7);
    assert_eq!(loader.parallel_threads(), 2);
    assert!(!loader.recovery_mode());
    assert_eq!(loader.load_csv(csv.as_bytes(), &mut lsm_tree, 0, 1).unwrap(), 25);
    for i in 0..24 {
        assert_eq!(lsm_tree.get(&format!("k{:02}", i)).unwrap(), Some(format!("v{}", i)));
    }
    assert_eq!(lsm_tree.get("k24").unwrap(), Some("again".to_string()));
    let none = ETLLoader::with_config(0, 1);
    assert!(matches!(
        none.load_csv(csv.as_bytes(), &mut lsm_tree, 0, 1),
        Err(DbError::InvalidArgument(_))
    ));
}

#[test]
fn test_delimiters_are_told_from_a_sample() {
    let parser = CSVParser::new(0, 1);
    assert_eq!(parser.detect_delimiter("a,b,c\n1,2,3\n"), Ok(b','));
    assert_eq!(parser.detect_delimiter("a;b;c\n1;2;3\n"), Ok(b';'));
    assert_eq!(parser.detect_delimiter("a\tb\n1\t2\n"), Ok(b'\t'));
    assert_eq!(parser.detect_delimiter("a|b|c\n1|2|3"), Ok(b'|'));
    assert_eq!(parser.detect_delimiter(""), Ok(b','));
    assert_eq!(parser.detect_delimiter("no delimiters here"), Ok(b','));
    // commas in uneven numbers do not count; the semicolons do
    assert_eq!(parser.detect_delimiter("a,b;c\n1,2,3;4\n"), Ok(b';'));
    // the more frequent of two even ones
    assert_eq!(parser.detect_delimiter("a;b;c,d\n1;2;3,4\n"), Ok(b';'));
    // of two with the same count, the comma comes first
    assert_eq!(parser.detect_delimiter("a;b,c\n"), Ok(b','));
    // lines behind the fifth are not looked at
    assert_eq!(parser.detect_delimiter("a,b\na,b\na,b\na,b\na,b\na,b,c,d\n"), Ok(b','));
    assert_eq!(parser.detect_delimiter("a,b\n\na,b\n"), Ok(b','));
}

#[test]
fn test_parser_options() {
    let parser = CSVParser::new(2, 3);
    assert_eq!(parser.delimiter(), b',');
    assert!(parser.has_headers());
    let parser = parser.with_delimiter(b';').with_headers(false);
    assert_eq!(parser.delimiter(), b';');
    assert!(!parser.has_headers());
    let parser = parser.with_custom_delimiter('\t');
    assert_eq!(parser.delimiter(), b'\t');
    // of a character beyond one byte the low byte is taken
    let parser = parser.with_custom_delimiter('\u{12c}');
    assert_eq!(parser.delimiter(), b',');
}

#[test]
fn test_parse_records() {
    let parser = CSVParser::new(1, 0).with_delimiter(b';');
    let records = parser.parse_records("v;k\n1;a\n2;b\n".as_bytes()).unwrap();
    assert_eq!(
        records,
        vec![
            ("a".to_string(), Value::Data("1".to_string())),
            ("b".to_string(), Value::Data("2".to_string())),
        ]
    );
    let headless = CSVParser::new(0, 1).with_headers(false);
    assert_eq!(headless.parse_records("k,v\n".as_bytes()).unwrap().len(), 1);
}

#[test]
fn test_schema_detection() {
    let parser = CSVParser::new(0, 1);
    let csv = "name,age,member,joined,note\nAnn,31,yes,2020-01-02,\nBob,x,NO,2021/02/03,hi\nCy,7.5,true,,1\n";
    let schema = parser.detect_schema(csv.as_bytes()).unwrap();
    assert_eq!(schema.columns, vec!["name", "age", "member", "joined", "note"]);
    assert_eq!(
        schema.types,
        vec![DataType::String, DataType::Number, DataType::Boolean, DataType::String, DataType::String]
    );
    assert_eq!(schema.get_column_type(1), Some(&DataType::Number));
    assert_eq!(schema.get_column_type(5), None);

    let headless = CSVParser::new(0, 1).with_headers(false);
    let schema = headless.detect_schema("1,a\n2,b\n".as_bytes()).unwrap();
    assert_eq!(schema.columns, vec!["column_0", "column_1"]);
    assert_eq!(schema.types, vec![DataType::Number, DataType::String]);

    let empty = parser.detect_schema("a,b\n".as_bytes()).unwrap();
    assert_eq!(empty.columns, vec!["a", "b"]);
    assert_eq!(empty.types, vec![DataType::String, DataType::String]);
    assert!(matches!(
        parser.detect_schema("a,b\n1,2\n3\n".as_bytes()),
        Err(DbError::InvalidOperation(_))
    ));
}

#[test]
fn test_field_and_record_validation() {
    let parser = CSVParser::new(0, 1);
    assert!(parser.validate_field_type("", &DataType::Number));
    assert!(parser.validate_field_type("anything", &DataType::String));
    assert!(parser.validate_field_type("1.5", &DataType::Number));
    assert!(!parser.validate_field_type("one", &DataType::Number));
    assert!(parser.validate_field_type("TRUE", &DataType::Boolean));
    assert!(parser.validate_field_type("No", &DataType::Boolean));
    assert!(parser.validate_field_type("0", &DataType::Boolean));
    assert!(!parser.validate_field_type("2", &DataType::Boolean));
    assert!(parser.validate_field_type("2020-01-02", &DataType::Date));
    assert!(parser.validate_field_type("1.2", &DataType::Date));
    assert!(!parser.validate_field_type("20200102", &DataType::Date));

    let record = vec!["a".to_string(), "x".to_string()];
    assert!(parser.validate_record(&record).is_ok());
    let schema = CSVSchema::new(vec!["k".to_string(), "n".to_string()], vec![DataType::String, DataType::Number]);
    let parser = parser.with_schema(schema);
    assert!(matches!(parser.validate_record(&record), Err(DbError::InvalidOperation(_))));
    assert!(parser.validate_record(&vec!["a".to_string(), "1".to_string(), "more".to_string()]).is_ok());
    let sample = vec![vec!["1".to_string()], vec!["yes".to_string()], vec!["0".to_string()]];
    // two of three read as numbers, and all three as truth values: numbers come first
    assert_eq!(parser.infer_column_type(&sample, 0), DataType::Number);
    assert_eq!(parser.infer_column_type(&sample, 1), DataType::String);
}

#[test]
fn test_rows_that_the_tree_refuses_are_passed_over() {
    let csv = "key,value\n,lost\nk,kept\n";
    let mut lsm_tree = tree();
    let loader = ETLLoader::new();
    assert_eq!(loader.load_csv(csv.as_bytes(), &mut lsm_tree, 0, 1).unwrap(), 1);
    assert_eq!(lsm_tree.get("k").unwrap(), Some("kept".to_string()));
    let result = loader.load_csv_with_recovery(csv.as_bytes(), &mut lsm_tree, 0, 1, true).unwrap();
    assert_eq!(result.total_rows, 2);
    assert_eq!(result.successful_inserts, 1);
    assert_eq!(result.errors.len(), 1);
    assert_eq!(result.errors[0].row_number, 0);
}

#[test]
fn test_a_later_batch_overwrites_an_earlier_one() {
    let csv = "k,first\nother,x\nk,second\n";
    let mut lsm_tree = tree();
    let loader = ETLLoader::with_config(2, 1);
    assert_eq!(loader.load_csv_with_options(csv.as_bytes(), &mut lsm_tree, 0, 1, false).unwrap(), 3);
    assert_eq!(lsm_tree.get("k").unwrap(), Some("second".to_string()));
    assert_eq!(lsm_tree.get("other").unwrap(), Some("x".to_string()));
}
