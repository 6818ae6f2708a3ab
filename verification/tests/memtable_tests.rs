use rust_solo_all_db::{DbError, MemTable, Value};

#[test]
fn test_multiple_entries() {
    let mut db = MemTable::new();

    for i in 0..5 {
        let key = format!("key{}", i);
        let value = format!("value{}", i);
        assert!(db.insert(key, value).is_ok());
    }

    assert_eq!(db.len(), 5);
    assert!(!db.is_empty());

    for i in 0..5 {
        let key = format!("key{}", i);
        let expected_value = format!("value{}", i);
        assert_eq!(db.get(&key).unwrap(), &expected_value);
    }
}

#[test]
fn test_memtable_keeps_key_order() {
    let mut db = MemTable::new();
    for key in ["m", "a", "z", "b", "aa", ""] {
        db.insert(key.to_string(), format!("v-{}", key)).unwrap();
    }
    let keys: Vec<&str> = db.data().iter().map(|r| r.key.as_str()).collect();
    assert_eq!(keys, vec!["", "a", "aa", "b", "m", "z"]);
    assert_eq!(db.snapshot().len(), 6);
}

#[test]
fn test_memtable_overwrite_and_tombstone() {
    let mut db = MemTable::new();
    db.insert("k".to_string(), "1".to_string()).unwrap();
    db.insert("k".to_string(), "2".to_string()).unwrap();
    assert_eq!(db.len(), 1);
    assert_eq!(db.get("k").unwrap(), "2");

    db.insert_tombstone("k".to_string()).unwrap();
    assert_eq!(db.len(), 1);
    assert_eq!(db.get("k"), Err(DbError::KeyNotFound("k".to_string())));
    assert_eq!(db.lookup("k"), Some(&Value::Tombstone));
    assert_eq!(db.lookup("other"), None);

    db.insert("k".to_string(), "3".to_string()).unwrap();
    assert_eq!(db.lookup("k"), Some(&Value::Data("3".to_string())));
}

#[test]
fn test_memtable_delete() {
    let mut db = MemTable::new();
    db.insert("k".to_string(), "1".to_string()).unwrap();
    assert_eq!(db.delete("k"), Ok("1".to_string()));
    assert_eq!(db.delete("k"), Err(DbError::KeyNotFound("k".to_string())));
    assert_eq!(db.delete("absent"), Ok(String::new()));
    assert_eq!(db.len(), 2);
    assert_eq!(db.lookup("absent"), Some(&Value::Tombstone));
}

#[test]
fn test_memtable_orders_by_bytes() {
    let mut db = MemTable::new();
    for key in ["é", "z", "Z", "10", "9", "\u{10000}", "\u{ffff}"] {
        db.insert(key.to_string(), String::new()).unwrap();
    }
    let keys: Vec<String> = db.data().iter().map(|r| r.key.clone()).collect();
    let mut sorted = keys.clone();
    sorted.sort();
    assert_eq!(keys, sorted);
}

#[test]
fn test_value_helpers_and_errors() {
    assert!(Value::Tombstone.is_tombstone());
    assert!(!Value::Data("x".to_string()).is_tombstone());
    assert_eq!(Value::Data("x".to_string()).as_data(), Some(&"x".to_string()));
    assert_eq!(Value::Tombstone.as_data(), None);
    assert_eq!(Value::Data("x".to_string()).clone(), Value::Data("x".to_string()));

    assert_eq!(DbError::KeyNotFound("k".to_string()).to_string(), "Key not found: k");
    assert_eq!(DbError::InvalidOperation("m".to_string()).to_string(), "Invalid operation: m");
    assert_eq!(DbError::InvalidQuery("q".to_string()).to_string(), "Invalid query: q");
    assert_eq!(DbError::Io("i".to_string()).to_string(), "I/O error: i");
    assert_eq!(DbError::Corrupt("c".to_string()).to_string(), "Corrupt data: c");
    assert_eq!(DbError::InvalidArgument("a".to_string()).to_string(), "Invalid argument: a");
    assert_eq!(DbError::Corrupt("c".to_string()).message(), "c");
}
