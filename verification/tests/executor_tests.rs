use rust_solo_all_db::engine::{LSMConfig, LSMTree};
use rust_solo_all_db::query::{
    Condition, DeleteStatement, InsertStatement, QueryExecutor, QueryResult, SelectStatement, Statement,
    Value, WhereClause,
};
use rust_solo_all_db::DbError;

fn tree() -> LSMTree {
    let mut config = LSMConfig::default();
    config.enable_wal = false;
    LSMTree::with_config(config, &Vec::new(), None).unwrap()
}

fn field<'a>(record: &'a Vec<(String, String)>, name: &str) -> Option<&'a String> {
    record.iter().find(|f| f.0 == name).map(|f| &f.1)
}

#[test]
fn test_execute_insert() {
    let mut lsm_tree = tree();
    let mut executor = QueryExecutor::new(&mut lsm_tree);

    let insert = InsertStatement {
        table: "users".to_string(),
        columns: vec!["key".to_string(), "value".to_string()],
        values: vec![Value::String("user1".to_string()), Value::String("Alice".to_string())],
    };

    let result = executor.execute(Statement::Insert(insert)).unwrap();

    if let QueryResult::Insert(count) = result {
        assert_eq!(count, 1);
    } else {
        panic!("Expected Insert result");
    }

    assert_eq!(lsm_tree.get("user1").unwrap(), Some("Alice".to_string()));
}

#[test]
fn test_execute_select() {
    let mut lsm_tree = tree();
    lsm_tree.insert("user1".to_string(), "Alice".to_string()).unwrap();

    let mut executor = QueryExecutor::new(&mut lsm_tree);

    let select = SelectStatement {
        columns: vec!["*".to_string()],
        table: "users".to_string(),
        where_clause: Some(WhereClause {
            condition: Condition::Equals("key".to_string(), Value::String("user1".to_string())),
        }),
        limit: None,
    };

    let result = executor.execute(Statement::Select(select)).unwrap();

    if let QueryResult::Select(records) = result {
        assert_eq!(records.len(), 1);
        assert_eq!(field(&records[0], "key"), Some(&"user1".to_string()));
        assert_eq!(field(&records[0], "value"), Some(&"Alice".to_string()));
    } else {
        panic!("Expected Select result");
    }
}

#[test]
fn test_execute_delete() {
    let mut lsm_tree = tree();
    lsm_tree.insert("user1".to_string(), "Alice".to_string()).unwrap();

    let mut executor = QueryExecutor::new(&mut lsm_tree);

    let delete = DeleteStatement {
        table: "users".to_string(),
        where_clause: Some(WhereClause {
            condition: Condition::Equals("key".to_string(), Value::String("user1".to_string())),
        }),
    };

    let result = executor.execute(Statement::Delete(delete)).unwrap();

    if let QueryResult::Delete(count) = result {
        assert_eq!(count, 1);
    } else {
        panic!("Expected Delete result");
    }

    assert_eq!(lsm_tree.get("user1").unwrap(), None);
}

#[test]
fn test_execute_refusals() {
    let mut lsm_tree = tree();
    let select = |columns: Vec<&str>, condition: Option<Condition>| SelectStatement {
        columns: columns.into_iter().map(|c| c.to_string()).collect(),
        table: "t".to_string(),
        where_clause: condition.map(|condition| WhereClause { condition }),
        limit: None,
    };
    let key_is = |k: &str| Condition::Equals("key".to_string(), Value::String(k.to_string()));
    assert!(matches!(
        QueryExecutor::execute_select(&lsm_tree, &select(vec!["a", "b"], Some(key_is("k")))),
        Err(DbError::InvalidOperation(_))
    ));
    assert!(matches!(
        QueryExecutor::execute_select(&lsm_tree, &select(vec!["*"], None)),
        Err(DbError::InvalidOperation(_))
    ));
    assert!(matches!(
        QueryExecutor::execute_select(
            &lsm_tree,
            &select(vec!["*"], Some(Condition::Equals("other".to_string(), Value::Null)))
        ),
        Err(DbError::InvalidOperation(_))
    ));
    assert_eq!(
        QueryExecutor::execute_select(&lsm_tree, &select(vec!["*"], Some(key_is("absent")))),
        Ok(QueryResult::Select(Vec::new()))
    );
    let insert = |columns: usize, values: Vec<Value>| InsertStatement {
        table: "t".to_string(),
        columns: (0..columns).map(|i| format!("c{}", i)).collect(),
        values,
    };
    assert!(matches!(
        QueryExecutor::execute_insert(&mut lsm_tree, &insert(1, vec![Value::Null, Value::Null])),
        Err(DbError::InvalidOperation(_))
    ));
    assert!(matches!(
        QueryExecutor::execute_insert(&mut lsm_tree, &insert(2, vec![Value::Null])),
        Err(DbError::InvalidOperation(_))
    ));
    assert!(matches!(
        QueryExecutor::execute_insert(&mut lsm_tree, &insert(2, vec![Value::Boolean(true), Value::Null])),
        Err(DbError::InvalidOperation(_))
    ));
    assert!(matches!(
        QueryExecutor::execute_insert(
            &mut lsm_tree,
            &insert(2, vec![Value::String(String::new()), Value::Null])
        ),
        Err(DbError::InvalidArgument(_))
    ));
    assert_eq!(
        QueryExecutor::execute_insert(
            &mut lsm_tree,
            &insert(2, vec![Value::Number("7".to_string()), Value::Boolean(false)])
        ),
        Ok(QueryResult::Insert(1))
    );
    assert_eq!(lsm_tree.get("7").unwrap(), Some("false".to_string()));
    QueryExecutor::execute_insert(
        &mut lsm_tree,
        &insert(2, vec![Value::String("n".to_string()), Value::Null]),
    )
    .unwrap();
    assert_eq!(lsm_tree.get("n").unwrap(), Some("NULL".to_string()));
    assert!(matches!(
        QueryExecutor::execute_delete(
            &mut lsm_tree,
            &DeleteStatement { table: "t".to_string(), where_clause: None }
        ),
        Err(DbError::InvalidOperation(_))
    ));
    assert_eq!(
        QueryExecutor::extract_key_from_condition(&Condition::Equals(
            "key".to_string(),
            Value::Number("12".to_string())
        )),
        Ok(Some("12".to_string()))
    );
    assert_eq!(
        QueryExecutor::extract_key_from_condition(&Condition::NotEquals("key".to_string(), Value::Null)),
        Ok(None)
    );
}

#[test]
fn test_query_result_format() {
    assert_eq!(QueryResult::Select(Vec::new()).format(), "No records found");
    assert_eq!(QueryResult::Insert(1).format(), "Inserted 1 record(s)");
    assert_eq!(QueryResult::Delete(12).format(), "Deleted 12 record(s)");
    let record = |k: &str, v: &str| {
        vec![("key".to_string(), k.to_string()), ("value".to_string(), v.to_string())]
    };
    assert_eq!(
        QueryResult::Select(vec![record("a", "1"), record("b", "2")]).format(),
        "key: avalue: 1\nkey: bvalue: 2"
    );
}
