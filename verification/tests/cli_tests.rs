use rust_solo_all_db::cli::{parse_count, verb_named, DatabaseCLI, LoadRequest, Verb};
use rust_solo_all_db::engine::{LSMConfig, LSMTree};
use rust_solo_all_db::DbError;

fn create_test_cli() -> DatabaseCLI {
    let mut config = LSMConfig::default();
    config.memtable_size_limit = 10;
    config.data_dir = "cli_test".to_string();
    config.enable_wal = false;
    config.background_compaction = false;

    let db = LSMTree::with_config(config, &Vec::new(), None).unwrap();
    DatabaseCLI::with_tree(db)
}

#[test]
fn test_handle_insert_command() {
    let mut cli = create_test_cli();

    let result = cli.handle_command("insert key1 value1");
    assert!(result.is_ok());
    assert_eq!(result.unwrap(), false);

    let value = cli.db().get("key1").unwrap();
    assert_eq!(value, Some("value1".to_string()));
    assert_eq!(cli.take_output(), vec!["Inserted: key1 -> value1"]);
}

#[test]
fn test_handle_get_command() {
    let mut cli = create_test_cli();

    cli.db_mut().insert("key1".to_string(), "value1".to_string()).unwrap();

    let result = cli.handle_command("get key1");
    assert!(result.is_ok());
    assert_eq!(result.unwrap(), false);
    assert_eq!(cli.handle_command("get other"), Ok(false));
    assert_eq!(cli.take_output(), vec!["key1: value1", "Key not found: other"]);
}

#[test]
fn test_handle_delete_command() {
    let mut cli = create_test_cli();

    cli.db_mut().insert("key1".to_string(), "value1".to_string()).unwrap();

    let result = cli.handle_command("delete key1");
    assert!(result.is_ok());
    assert_eq!(result.unwrap(), false);

    let value = cli.db().get("key1").unwrap();
    assert_eq!(value, None);
    assert_eq!(cli.take_output(), vec!["Deleted: key1"]);
}

#[test]
fn test_handle_compact_command() {
    let mut cli = create_test_cli();

    for i in 0..20 {
        cli.db_mut().insert(format!("key{}", i), format!("value{}", i)).unwrap();
    }

    cli.db_mut().flush().unwrap();

    let result = cli.handle_command("compact");
    assert!(result.is_ok());
    assert_eq!(result.unwrap(), false);

    let value = cli.db().get("key0").unwrap();
    assert_eq!(value, Some("value0".to_string()));
    assert_eq!(
        cli.take_output(),
        vec!["After compaction: LSMTree Stats: MemTable: 0, SSTables: 1 (total 20 entries), flush at 10"]
    );
}

#[test]
fn test_handle_autocompact_command() {
    let mut cli = create_test_cli();

    for i in 0..15 {
        cli.db_mut().insert(format!("key{}", i), format!("value{}", i)).unwrap();
    }

    cli.db_mut().flush().unwrap();

    let result = cli.handle_command("autocompact");
    assert!(result.is_ok());
    assert_eq!(result.unwrap(), false);

    let value = cli.db().get("key0").unwrap();
    assert_eq!(value, Some("value0".to_string()));
}

#[test]
fn test_handle_stats_command() {
    let mut cli = create_test_cli();

    let result = cli.handle_command("stats");
    assert!(result.is_ok());
    assert_eq!(result.unwrap(), false);
    assert_eq!(
        cli.take_output(),
        vec!["LSMTree Stats: MemTable: 0, SSTables: 0 (total 0 entries), flush at 10"]
    );
}

#[test]
fn test_handle_flush_command() {
    let mut cli = create_test_cli();

    cli.db_mut().insert("key1".to_string(), "value1".to_string()).unwrap();

    let result = cli.handle_command("flush");
    assert!(result.is_ok());
    assert_eq!(result.unwrap(), false);

    let value = cli.db().get("key1").unwrap();
    assert_eq!(value, Some("value1".to_string()));
    assert_eq!(cli.db().stats().memtable_entries, 0);
    assert_eq!(cli.take_output(), vec!["Database flushed to disk"]);
}

#[test]
fn test_handle_help_command() {
    let mut cli = create_test_cli();

    let result = cli.handle_command("help");
    assert!(result.is_ok());
    assert_eq!(result.unwrap(), false);
    let lines = cli.take_output();
    assert_eq!(lines.len(), 11);
    assert_eq!(lines[0], "Available commands:");
    assert_eq!(cli.print_help(), lines);
}

#[test]
fn test_handle_quit_command() {
    let mut cli = create_test_cli();

    let result = cli.handle_command("quit");
    assert!(result.is_ok());
    assert_eq!(result.unwrap(), true);

    let result = cli.handle_command("exit");
    assert!(result.is_ok());
    assert_eq!(result.unwrap(), true);
    assert_eq!(cli.handle_command("QUIT now"), Ok(true));
}

#[test]
fn test_handle_unknown_command() {
    let mut cli = create_test_cli();

    let result = cli.handle_command("unknown_command");
    assert!(result.is_ok());
    assert_eq!(result.unwrap(), false);
    assert_eq!(
        cli.take_output(),
        vec!["Unknown command: unknown_command. Type 'help' for available commands."]
    );
}

#[test]
fn test_handle_invalid_insert_command() {
    let mut cli = create_test_cli();

    let result = cli.handle_command("insert key1");
    assert!(result.is_ok());
    assert_eq!(result.unwrap(), false);

    let result = cli.handle_command("insert");
    assert!(result.is_ok());
    assert_eq!(result.unwrap(), false);
    assert_eq!(cli.take_output(), vec!["Usage: insert <key> <value>", "Usage: insert <key> <value>"]);
}

#[test]
fn test_handle_invalid_get_command() {
    let mut cli = create_test_cli();

    let result = cli.handle_command("get");
    assert!(result.is_ok());
    assert_eq!(result.unwrap(), false);
    assert_eq!(cli.take_output(), vec!["Usage: get <key>"]);
}

#[test]
fn test_handle_invalid_delete_command() {
    let mut cli = create_test_cli();

    let result = cli.handle_command("delete");
    assert!(result.is_ok());
    assert_eq!(result.unwrap(), false);
    assert_eq!(cli.take_output(), vec!["Usage: delete <key"]);
}

#[test]
fn test_empty_command() {
    let mut cli = create_test_cli();

    let result = cli.handle_command("");
    assert!(result.is_ok());
    assert_eq!(result.unwrap(), false);
}

#[test]
fn test_whitespace_command() {
    let mut cli = create_test_cli();

    let result = cli.handle_command("   ");
    assert!(result.is_ok());
    assert_eq!(result.unwrap(), false);
    assert!(cli.take_output().is_empty());
}

#[test]
fn test_command_aliases() {
    let mut cli = create_test_cli();

    let result = cli.handle_command("put key1 value1");
    assert!(result.is_ok());
    assert_eq!(result.unwrap(), false);

    let value = cli.db().get("key1").unwrap();
    assert_eq!(value, Some("value1".to_string()));

    let result = cli.handle_command("del key1");
    assert!(result.is_ok());
    assert_eq!(result.unwrap(), false);

    let value = cli.db().get("key1").unwrap();
    assert_eq!(value, None);
}

#[test]
fn test_compact_with_data_integrity() {
    let mut cli = create_test_cli();

    for batch in 0..3 {
        for i in 0..10 {
            let key = format!("key{}_{}", batch, i);
            let value = format!("value{}_{}", batch, i);
            cli.db_mut().insert(key, value).unwrap();
        }
        cli.db_mut().flush().unwrap();
    }

    for i in 0..5 {
        let key = format!("key0_{}", i);
        cli.db_mut().delete(&key).unwrap();
    }
    cli.db_mut().flush().unwrap();

    let result = cli.handle_command("compact");
    assert!(result.is_ok());

    for i in 0..5 {
        let key = format!("key0_{}", i);
        let value = cli.db().get(&key).unwrap();
        assert_eq!(value, None);
    }

    for i in 5..10 {
        let key = format!("key0_{}", i);
        let value = cli.db().get(&key).unwrap();
        assert_eq!(value, Some(format!("value0_{}", i)));
    }

    for batch in 1..3 {
        for i in 0..10 {
            let key = format!("key{}_{}", batch, i);
            let value = cli.db().get(&key).unwrap();
            assert_eq!(value, Some(format!("value{}_{}", batch, i)));
        }
    }
}

#[test]
fn test_autocompact_with_data_integrity() {
    let mut cli = create_test_cli();

    for i in 0..25 {
        cli.db_mut().insert(format!("key{}", i), format!("value{}", i)).unwrap();
    }
    cli.db_mut().flush().unwrap();

    let result = cli.handle_command("autocompact");
    assert!(result.is_ok());

    for i in 0..25 {
        let value = cli.db().get(&format!("key{}", i)).unwrap();
        assert_eq!(value, Some(format!("value{}", i)));
    }
}

#[test]
fn test_load_command_leaves_a_request() {
    let mut cli = create_test_cli();
    assert_eq!(cli.handle_command("load"), Ok(false));
    assert_eq!(cli.take_output(), vec!["Usage: load <csv_file> [key_column] [value_column]"]);
    assert_eq!(cli.take_load_request(), None);

    assert_eq!(cli.handle_command("load people.csv 2 x"), Ok(false));
    let request = cli.take_load_request().unwrap();
    assert_eq!(
        request,
        LoadRequest { file_path: "people.csv".to_string(), key_column: 2, value_column: 1 }
    );
    assert_eq!(cli.take_load_request(), None);

    cli.load(&request, "a,b,c\n1,2,3\n4,5,6\n".as_bytes());
    assert_eq!(cli.take_output(), vec!["Successfully loaded 2 records from people.csv"]);
    assert_eq!(cli.db().get("3").unwrap(), Some("2".to_string()));
    cli.load(&request, "a,b\n1,2\n".as_bytes());
    let said = cli.take_output();
    assert_eq!(said.len(), 1);
    assert!(said[0].starts_with("Error loading CSV: "));
}

#[test]
fn test_refused_writes_and_counts() {
    let mut cli = DatabaseCLI::new().unwrap();
    assert_eq!(cli.db().stats().next_flush_at, 100);
    let long = "x".repeat(10);
    assert_eq!(cli.handle_command(&format!("insert {} {}", long, long)), Ok(false));
    assert!(!matches!(cli.handle_command("insert a b"), Err(DbError::InvalidArgument(_))));
    assert_eq!(parse_count("12"), Some(12));
    assert_eq!(parse_count("+7"), Some(7));
    assert_eq!(parse_count("007"), Some(7));
    assert_eq!(parse_count(""), None);
    assert_eq!(parse_count("+"), None);
    assert_eq!(parse_count("-1"), None);
    assert_eq!(parse_count("1a"), None);
    assert_eq!(parse_count("99999999999999999999999999"), None);
    assert_eq!(parse_count(&usize::MAX.to_string()), Some(usize::MAX));
}

#[test]
fn test_words_name_commands() {
    assert_eq!(verb_named("insert"), Verb::Insert);
    assert_eq!(verb_named("put"), Verb::Insert);
    assert_eq!(verb_named("get"), Verb::Get);
    assert_eq!(verb_named("delete"), Verb::Delete);
    assert_eq!(verb_named("del"), Verb::Delete);
    assert_eq!(verb_named("stats"), Verb::Stats);
    assert_eq!(verb_named("flush"), Verb::Flush);
    assert_eq!(verb_named("compact"), Verb::Compact);
    assert_eq!(verb_named("autocompact"), Verb::AutoCompact);
    assert_eq!(verb_named("load"), Verb::Load);
    assert_eq!(verb_named("help"), Verb::Help);
    assert_eq!(verb_named("quit"), Verb::Quit);
    assert_eq!(verb_named("exit"), Verb::Quit);
    assert_eq!(verb_named("INSERT"), Verb::Unknown);
    assert_eq!(verb_named(""), Verb::Unknown);
}

#[test]
fn test_commands_by_kind() {
    let mut cli = DatabaseCLI::new().unwrap();
    let words = |text: &str| text.split_whitespace().map(|w| w.to_string()).collect::<Vec<String>>();
    assert_eq!(cli.run_verb(Verb::Insert, &words("anything k v")), Ok(false));
    assert_eq!(cli.run_verb(Verb::Get, &words("anything k")), Ok(false));
    assert_eq!(cli.run_verb(Verb::Get, &words("anything other")), Ok(false));
    assert_eq!(cli.run_verb(Verb::Stats, &words("stats")), Ok(false));
    assert_eq!(cli.run_verb(Verb::Quit, &words("stop")), Ok(true));
    assert_eq!(
        cli.take_output(),
        vec![
            "Inserted: k -> v",
            "k: v",
            "Key not found: other",
            "LSMTree Stats: MemTable: 1, SSTables: 0 (total 0 entries), flush at 100",
        ]
    );
    assert_eq!(cli.run_verb(Verb::Load, &words("load file.csv 2 x")), Ok(false));
    assert_eq!(
        cli.take_load_request(),
        Some(LoadRequest { file_path: "file.csv".to_string(), key_column: 2, value_column: 1 })
    );
    assert!(cli.take_output().is_empty());
}

#[test]
fn test_help_text() {
    let cli = DatabaseCLI::new().unwrap();
    let lines = cli.print_help();
    assert_eq!(lines.len(), 11);
    assert_eq!(lines[0], "Available commands:");
    assert_eq!(lines[2], "  get <key>                               - Get value by key");
    assert_eq!(lines[10], "  quit                                    - Exit the CLI");
}
